//! Reading WordprocessingML: heading levels from paragraph styles, and the
//! walk over a document's XML events that turns its paragraphs into text.
//! The events come from an XML reader; each is handed to `step` with the
//! document text, and the walk keeps the paragraph spans aligned with them.

use vstd::prelude::*;
use crate::chars::{self, chars_of, string_of, push_str, to_lower, squash_str};
use crate::strs::{self, owned};
use crate::model::{Paragraph, str_eq};
use crate::xml::{para_span, next_paragraph_span};
use crate::error::CoreError;
use crate::package::{zip_file_text, zip_opens, parse_error_saying};
use quick_xml::events::Event;
use quick_xml::events::Event::{Empty, End, Eof, Start, Text as Chars};
use quick_xml::Reader;
use crate::wordml::XmlEvent::{Close, Open, Other, Text};

verus! {

// ---------------------------------------------------------------------------
// Heading levels
// ---------------------------------------------------------------------------

pub open spec fn without_spaces(s: Seq<char>) -> Seq<char>
    decreases s.len(),
{
    if s.len() == 0 {
        Seq::empty()
    } else {
        without_spaces(s.drop_last()) + (if s.last() == ' ' { Seq::empty() } else { seq![s.last()] })
    }
}

pub open spec fn digits_value(d: Seq<char>) -> nat
    decreases d.len(),
{
    if d.len() == 0 {
        0
    } else {
        digits_value(d.drop_last()) * 10 + ((d.last() as nat) - 48) as nat
    }
}

/// `str::parse::<u8>`: an optional `+`, then one or more ASCII digits, with
/// a value of at most 255.
pub open spec fn parse_u8(t: Seq<char>) -> Option<u8> {
    let d = unsigned_digits(t);
    if d.len() == 0 || !all_digits(d) {
        None
    } else if digits_value(d) <= 255 {
        Some(digits_value(d) as u8)
    } else {
        None
    }
}

/// The digits of an unsigned number: the text after an optional `+`.
pub open spec fn unsigned_digits(t: Seq<char>) -> Seq<char> {
    if t.len() > 0 && t[0] == '+' { t.drop_first() } else { t }
}

pub open spec fn all_digits(d: Seq<char>) -> bool {
    forall|i: int| 0 <= i < d.len() ==> chars::is_digit(#[trigger] d[i])
}

/// The heading level a paragraph style declares: `Title` is level 1,
/// `Heading1` to `Heading9` (any ASCII case, spaces ignored) their own level.
pub open spec fn style_heading_level(style: Seq<char>) -> Option<u8> {
    let s = without_spaces(chars::lower(style));
    if s == "title"@ {
        Some(1)
    } else if chars::starts_with(s, "heading"@) {
        match parse_u8(s.skip(7)) {
            Some(l) => if 1 <= l <= 9 { Some(l) } else { None },
            None => None,
        }
    } else {
        None
    }
}

pub(crate) proof fn lemma_digits_value_grows(d: Seq<char>, k: int)
    requires
        0 <= k <= d.len(),
        forall|i: int| 0 <= i < d.len() ==> chars::is_digit(#[trigger] d[i]),
    ensures
        digits_value(d.take(k)) <= digits_value(d),
    decreases d.len() - k,
{
    if k < d.len() {
        lemma_digits_value_grows(d, k + 1);
        assert(d.take(k + 1).drop_last() == d.take(k));
    } else {
        assert(d.take(k) == d);
    }
}

fn parse_u8_exec(t: &[char]) -> (r: Option<u8>)
    ensures
        r == parse_u8(t@),
{
    let start: usize = if t.len() > 0 && t[0] == '+' { 1 } else { 0 };
    let d = chars::slice_of(t, start, t.len());
    assert(d@ == (if t@.len() > 0 && t@[0] == '+' { t@.drop_first() } else { t@ }));
    if d.len() == 0 {
        return None;
    }
    let mut v: u32 = 0;
    let mut i: usize = 0;
    while i < d.len()
        invariant
            i <= d.len(),
            d@ == unsigned_digits(t@),
            d@.len() > 0,
            forall|k: int| 0 <= k < i ==> chars::is_digit(#[trigger] d@[k]),
            v == digits_value(d@.take(i as int)),
            v <= 255,
        decreases d.len() - i,
    {
        assert(d@.take(i + 1).drop_last() == d@.take(i as int));
        let c = d[i];
        if !(c >= '0' && c <= '9') {
            assert(!chars::is_digit(d@[i as int]));
            assert(!all_digits(d@));
            assert(parse_u8(t@) is None);
            return None;
        }
        let nv = v * 10 + ((c as u32) - 48);
        i += 1;
        assert(d@.take(i as int).last() == c);
        assert(nv == digits_value(d@.take(i as int)));
        if nv > 255 {
            proof {
                if all_digits(d@) {
                    lemma_digits_value_grows(d@, i as int);
                    assert(digits_value(d@) > 255);
                }
                assert(parse_u8(t@) is None);
            }
            return None;
        }
        v = nv;
    }
    assert(d@.take(d.len() as int) == d@);
    Some(v as u8)
}

fn without_spaces_exec(s: &[char]) -> (r: Vec<char>)
    ensures
        r@ == without_spaces(s@),
{
    let mut out: Vec<char> = Vec::new();
    let mut i: usize = 0;
    while i < s.len()
        invariant
            i <= s.len(),
            out@ == without_spaces(s@.take(i as int)),
        decreases s.len() - i,
    {
        assert(s@.take(i + 1).drop_last() == s@.take(i as int));
        let ghost o0 = out@;
        if s[i] != ' ' {
            out.push(s[i]);
        }
        assert(out@ =~= o0 + (if s@[i as int] == ' ' { Seq::<char>::empty() } else { seq![s@[i as int]] }));
        i += 1;
    }
    assert(s@.take(s.len() as int) == s@);
    out
}

/// Map DOCX paragraph style ids to heading levels: `Heading1`, `heading 1`,
/// `Title`, …
pub fn heading_level_from_style(style: &str) -> (r: Option<u8>)
    ensures
        r == style_heading_level(style@),
{
    let s = without_spaces_exec(to_lower(chars_of(style).as_slice()).as_slice());
    let st = string_of(s.as_slice());
    if str_eq(st.as_str(), "title") {
        return Some(1);
    }
    if chars::starts_with_str(s.as_slice(), "heading") {
        proof {
            reveal_strlit("heading");
        }
        let rest = chars::slice_of(s.as_slice(), 7, s.len());
        assert(rest@ == s@.skip(7));
        match parse_u8_exec(rest.as_slice()) {
            Some(l) => if 1 <= l && l <= 9 { Some(l) } else { None },
            None => None,
        }
    } else {
        None
    }
}

/// Whitespace runs collapsed to single spaces, ends trimmed.
pub fn normalize_ws(s: &str) -> (r: String)
    ensures
        r@ == chars::squash(s@),
{
    squash_str(s)
}

// ---------------------------------------------------------------------------
// The walk over a document's events
// ---------------------------------------------------------------------------

/// An XML event as the reader gives it: an element opening (a start or
/// empty tag: its local name and its attributes, each as local name and raw
/// value), text (raw, as written), an element closing (its local name), or
/// anything else.
pub enum XmlEvent {
    Open(String, Vec<(String, String)>),
    Text(String),
    Close(String),
    Other,
}

/// The value of the first attribute whose local name is `val`.
pub open spec fn attr_val(attrs: Seq<(String, String)>) -> Option<Seq<char>>
    decreases attrs.len(),
{
    if attrs.len() == 0 {
        None
    } else if attrs[0].0@ == "val"@ {
        Some(attrs[0].1@)
    } else {
        attr_val(attrs.drop_first())
    }
}

/// The value of the first attribute whose local name is `val`.
pub fn find_val(attrs: &Vec<(String, String)>) -> (r: Option<&String>)
    ensures
        match r {
            Some(v) => attr_val(attrs@) == Some(v@),
            None => attr_val(attrs@) is None,
        },
{
    let mut i: usize = 0;
    assert(attrs@.skip(0) =~= attrs@);
    while i < attrs.len()
        invariant
            i <= attrs.len(),
            attr_val(attrs@) == attr_val(attrs@.skip(i as int)),
        decreases attrs.len() - i,
    {
        assert(attrs@.skip(i as int)[0] == attrs@[i as int]);
        assert(attrs@.skip(i as int).drop_first() =~= attrs@.skip(i + 1));
        if str_eq(attrs[i].0.as_str(), "val") {
            return Some(&attrs[i].1);
        }
        i += 1;
    }
    None
}

/// The events `quick_xml::Reader` reads from a document, up to its end or
/// to the first error, and whether it stopped on an error.
pub uninterp spec fn xml_reader_events(xml: Seq<char>) -> (Seq<XmlEvent>, bool);

/// What `quick_xml::escape::unescape` makes of raw XML text; `None` when it
/// reports an error.
pub uninterp spec fn xml_unescaped(raw: Seq<char>) -> Option<Seq<char>>;

#[verifier::external_type_specification]
#[verifier::external_body]
pub struct ExXmlError(quick_xml::Error);

/// The text of an XML reader error (its `Display`).
#[verifier::external_body]
fn xml_error_text(e: &quick_xml::Error) -> (r: String) {
    format!("{e}")
}

/// Reads the document with `quick_xml::Reader::read_event` until the end,
/// handing out each event as an `XmlEvent` (names and attribute keys by
/// local name, text raw); the events read before an error, with that error.
/// The result is named `xml_reader_events`.
#[verifier::external_body]
fn read_xml_events(xml: &str) -> (r: (Vec<XmlEvent>, Option<quick_xml::Error>))
    ensures
        xml_reader_events(xml@) == (r.0@, r.1 is Some),
{
    let s = |n: &_| String::from_utf8_lossy(n).into_owned();
    let mut reader = Reader::from_str(xml);
    let mut out = vec![];
    loop {
        out.push(match reader.read_event() {
            Ok(Start(t) | Empty(t)) => Open(s(t.local_name().into_inner()),
                t.attributes().flatten().map(|a| (s(a.key.local_name().into_inner()), s(&a.value))).collect()),
            Ok(Chars(t)) => Text(s(&t)),
            Ok(End(t)) => Close(s(t.local_name().into_inner())),
            r @ (Ok(Eof) | Err(_)) => return (out, r.err()),
            _ => Other
        })
    }
}

/// Calls `quick_xml::escape::unescape` on raw XML text (resolving the
/// predefined entities and character references); its result is named
/// `xml_unescaped`, its error passed on as the reader's error type.
#[verifier::external_body]
fn unescape_text(raw: &str) -> (r: Result<String, quick_xml::Error>)
    ensures
        r matches Ok(t) ==> xml_unescaped(raw@) == Some(t@),
        r is Err ==> xml_unescaped(raw@) is None,
{
    quick_xml::escape::unescape(raw).map(|c| c.into_owned()).map_err(quick_xml::Error::from)
}

/// The walk's state: the paragraphs so far, the text and heading level of
/// the paragraph being read, whether one is open, and the cursor of the
/// paragraph-span scan.
pub struct DocxWalk {
    pub paragraphs: Vec<Paragraph>,
    pub current: String,
    pub heading_level: Option<u8>,
    pub in_paragraph: bool,
    pub scan_from: usize,
}

pub struct WalkView {
    pub paragraphs: Seq<(Seq<char>, Option<u8>, Option<Seq<char>>)>,
    pub current: Seq<char>,
    pub heading_level: Option<u8>,
    pub in_paragraph: bool,
    pub scan_from: int,
}

impl DocxWalk {
    pub open spec fn view_walk(&self) -> WalkView {
        WalkView {
            paragraphs: para_views(self.paragraphs@),
            current: self.current@,
            heading_level: self.heading_level,
            in_paragraph: self.in_paragraph,
            scan_from: self.scan_from as int,
        }
    }

    pub fn new() -> (r: DocxWalk)
        ensures
            r.view_walk().paragraphs.len() == 0,
            r.view_walk().current.len() == 0,
            r.heading_level is None,
            !r.in_paragraph,
            r.scan_from == 0,
    {
        let r = DocxWalk { paragraphs: Vec::new(), current: String::new(), heading_level: None, in_paragraph: false, scan_from: 0 };
        assert(r.view_walk().paragraphs =~= Seq::<(Seq<char>, Option<u8>, Option<Seq<char>>)>::empty());
        r
    }
}

/// Paragraphs as text, heading level and original XML.
pub open spec fn para_views(ps: Seq<Paragraph>) -> Seq<(Seq<char>, Option<u8>, Option<Seq<char>>)> {
    ps.map_values(|p: Paragraph| (p.text@, p.heading_level, strs::opt_view(p.ooxml)))
}

/// The walk after one event over the document text `xml`; `None` when text
/// inside a paragraph cannot be unescaped. A paragraph opening starts a
/// fresh paragraph; a paragraph style may set its heading level; tabs and
/// breaks inside it read as spaces; its text accumulates, unescaped; its
/// closing consumes its span of `xml` and keeps it, with the text whitespace
/// normalised, unless the text is blank. Text outside paragraphs is ignored.
pub open spec fn walk_step(xml: Seq<char>, w: WalkView, ev: XmlEvent) -> Option<WalkView> {
    match ev {
        XmlEvent::Open(name, attrs) => Some(
            if name@ == "p"@ {
                WalkView { current: Seq::empty(), heading_level: None, in_paragraph: true, ..w }
            } else if name@ == "pStyle"@ {
                match attr_val(attrs@) {
                    Some(v) => match style_heading_level(v) {
                        Some(l) => WalkView { heading_level: Some(l), ..w },
                        None => w,
                    },
                    None => w,
                }
            } else if (name@ == "tab"@ || name@ == "br"@ || name@ == "cr"@) && w.in_paragraph {
                WalkView { current: w.current.push(' '), ..w }
            } else {
                w
            }),
        XmlEvent::Text(t) => if w.in_paragraph {
            match xml_unescaped(t@) {
                Some(u) => Some(WalkView { current: w.current + u, ..w }),
                None => None,
            }
        } else {
            Some(w)
        },
        XmlEvent::Close(name) => Some(
            if name@ == "p"@ {
                let (scan, raw) = match para_span(xml, w.scan_from) {
                    Some((s, e)) => (e, Some(xml.subrange(s, e))),
                    None => (w.scan_from, None),
                };
                let text = chars::squash(w.current);
                WalkView {
                    paragraphs: if text.len() > 0 { w.paragraphs.push((text, w.heading_level, raw)) } else { w.paragraphs },
                    in_paragraph: false,
                    scan_from: scan,
                    ..w
                }
            } else {
                w
            }),
        XmlEvent::Other => Some(w),
    }
}

/// Apply one event of the document `xml` to the walk; the unescaping error
/// when the event is text in a paragraph that cannot be unescaped.
pub fn step(walk: &mut DocxWalk, xml: &str, ev: &XmlEvent) -> (r: Result<(), quick_xml::Error>)
    ensures
        match walk_step(xml@, old(walk).view_walk(), *ev) {
            Some(w) => r is Ok && final(walk).view_walk() == w,
            None => r is Err,
        },
{
    let ghost w0 = walk.view_walk();
    match ev {
        XmlEvent::Open(name, attrs) => {
            let n = name.as_str();
            if str_eq(n, "p") {
                walk.in_paragraph = true;
                walk.current = String::new();
                walk.heading_level = None;
            } else if str_eq(n, "pStyle") {
                match find_val(attrs) {
                    Some(v) => match heading_level_from_style(v.as_str()) {
                        Some(l) => walk.heading_level = Some(l),
                        None => {},
                    },
                    None => {},
                }
            } else if (str_eq(n, "tab") || str_eq(n, "br") || str_eq(n, "cr")) && walk.in_paragraph {
                walk.current.push(' ');
            }
        },
        XmlEvent::Text(t) => {
            if walk.in_paragraph {
                let u = unescape_text(t.as_str())?;
                push_str(&mut walk.current, u.as_str());
            }
        },
        XmlEvent::Close(name) => {
            if str_eq(name.as_str(), "p") {
                walk.in_paragraph = false;
                let mut from = walk.scan_from;
                let raw = next_paragraph_span(xml, &mut from);
                walk.scan_from = from;
                let text = normalize_ws(walk.current.as_str());
                if chars_of(text.as_str()).len() > 0 {
                    let ghost p0 = walk.view_walk().paragraphs;
                    let ghost rv = strs::opt_view(raw);
                    let hl = walk.heading_level;
                    walk.paragraphs.push(Paragraph { text, heading_level: hl, ooxml: raw });
                    assert(walk.view_walk().paragraphs =~= p0.push((chars::squash(w0.current), w0.heading_level, rv)));
                }
            }
        },
        XmlEvent::Other => {},
    }
    assert(Some(walk.view_walk()) == walk_step(xml@, w0, *ev));
    Ok(())
}

/// The walk before any event.
pub open spec fn initial_walk() -> WalkView {
    WalkView { paragraphs: Seq::empty(), current: Seq::empty(), heading_level: None, in_paragraph: false, scan_from: 0 }
}

/// The walk after a sequence of events, in order; `None` once a step fails.
pub open spec fn walk_events(xml: Seq<char>, w: WalkView, evs: Seq<XmlEvent>) -> Option<WalkView>
    decreases evs.len(),
{
    if evs.len() == 0 {
        Some(w)
    } else {
        match walk_events(xml, w, evs.drop_last()) {
            Some(w2) => walk_step(xml, w2, evs.last()),
            None => None,
        }
    }
}

/// Once a walk has failed, more events do not revive it.
proof fn lemma_walk_failed(xml: Seq<char>, w: WalkView, evs: Seq<XmlEvent>, n: int)
    requires
        0 <= n <= evs.len(),
        walk_events(xml, w, evs.take(n)) is None,
    ensures
        walk_events(xml, w, evs) is None,
    decreases evs.len() - n,
{
    if n < evs.len() {
        assert(evs.take(n + 1).drop_last() == evs.take(n));
        lemma_walk_failed(xml, w, evs, n + 1);
    } else {
        assert(evs.take(n) == evs);
    }
}

/// The paragraphs of a WordprocessingML document `xml`, from the events an
/// XML reader produced for it, in order: the non-blank paragraphs, their
/// text whitespace-normalised, with the heading level their style declares
/// and their original XML. Text in a paragraph that cannot be unescaped is a
/// parse error of `file_name`.
pub fn paragraphs_from_events(xml: &str, events: &[XmlEvent], file_name: &str) -> (r: Result<Vec<Paragraph>, CoreError>)
    ensures
        match walk_events(xml@, initial_walk(), events@) {
            Some(w) => r matches Ok(ps) && para_views(ps@) == w.paragraphs,
            None => r matches Err(e) && parse_error_saying(e, file_name@, "bad xml text: "@),
        },
{
    let mut walk = DocxWalk::new();
    assert(walk.view_walk().paragraphs =~= Seq::<(Seq<char>, Option<u8>, Option<Seq<char>>)>::empty());
    assert(walk.view_walk().current =~= Seq::<char>::empty());
    assert(walk.view_walk() == initial_walk());
    let mut i: usize = 0;
    while i < events.len()
        invariant
            i <= events.len(),
            walk_events(xml@, initial_walk(), events@.take(i as int)) == Some(walk.view_walk()),
        decreases events.len() - i,
    {
        assert(events@.take(i + 1).drop_last() == events@.take(i as int));
        match step(&mut walk, xml, &events[i]) {
            Ok(()) => {},
            Err(e) => {
                proof {
                    lemma_walk_failed(xml@, initial_walk(), events@, i + 1);
                }
                let mut message = owned("bad xml text: ");
                let m = xml_error_text(&e);
                push_str(&mut message, m.as_str());
                proof {
                    assert(message@.take("bad xml text: "@.len() as int) =~= "bad xml text: "@);
                }
                return Err(CoreError::Parse { file: owned(file_name), message });
            },
        }
        i += 1;
    }
    assert(events@.take(events.len() as int) == events@);
    Ok(walk.paragraphs)
}

/// The paragraphs of a DOCX file whose bytes are given: its
/// `word/document.xml` read by the XML reader and walked (see
/// `paragraphs_from_events`) as far as the reader got. A file that is no
/// package, or lacks that part, fails as `docx_part` does; text that cannot
/// be unescaped, and then a reader error, are parse errors of the file.
pub fn docx_paragraphs(bytes: &[u8], file_name: &str) -> (r: Result<Vec<Paragraph>, CoreError>)
    ensures
        zip_file_text(bytes@, "word/document.xml"@) matches Some(x) ==> match walk_events(x, initial_walk(), xml_reader_events(x).0) {
            Some(w) => if xml_reader_events(x).1 {
                r matches Err(e) && parse_error_saying(e, file_name@, "xml error: "@)
            } else {
                r matches Ok(ps) && para_views(ps@) == w.paragraphs
            },
            None => r matches Err(e) && parse_error_saying(e, file_name@, "bad xml text: "@),
        },
        zip_file_text(bytes@, "word/document.xml"@) is None ==> r is Err,
        !zip_opens(bytes@) ==> (r matches Err(e) && parse_error_saying(e, file_name@, "not a valid docx (zip) file: "@)),
{
    let xml = crate::package::docx_part(bytes, "word/document.xml", file_name)?;
    let (events, failure) = read_xml_events(xml.as_str());
    let paragraphs = paragraphs_from_events(xml.as_str(), events.as_slice(), file_name)?;
    match failure {
        None => Ok(paragraphs),
        Some(e) => {
            let mut message = owned("xml error: ");
            let m = xml_error_text(&e);
            push_str(&mut message, m.as_str());
            proof {
                assert(message@.take("xml error: "@.len() as int) =~= "xml error: "@);
            }
            Err(CoreError::Parse { file: owned(file_name), message })
        },
    }
}

} // verus!
