//! Incremental ingestion of a watched folder: a file is re-indexed only when
//! its content hash changed, files that vanished are tombstoned, and a scan
//! reports what it did. The folder walk, file reads and index writes are the
//! caller's; the decisions and the tallies are here.

use vstd::prelude::*;
use sha2::Digest;
use crate::chars::{self, push_str};
use crate::strs::{self, views};
use crate::search::{hex, hex_of};
use crate::model::ExtractedClause;

verus! {

/// The SHA-256 digest of a byte string.
pub uninterp spec fn sha256(bytes: Seq<u8>) -> Seq<u8>;

/// Calls `sha2::Sha256::digest` on the bytes. Its result is named `sha256`;
/// a SHA-256 digest is 32 bytes long.
#[verifier::external_body]
fn sha256_digest(bytes: &[u8]) -> (r: Vec<u8>)
    ensures
        r@ == sha256(bytes@),
        r@.len() == 32,
{
    sha2::Sha256::digest(bytes).to_vec()
}

proof fn lemma_hex_len(bytes: Seq<u8>)
    ensures
        hex_of(bytes).len() == 2 * bytes.len(),
    decreases bytes.len(),
{
    if bytes.len() > 0 {
        lemma_hex_len(bytes.drop_last());
    }
}

/// A file's content hash: the lowercase hex text of its SHA-256 digest.
pub fn content_hash(bytes: &[u8]) -> (r: String)
    ensures
        r@ == hex_of(sha256(bytes@)),
        r@.len() == 64,
{
    let d = sha256_digest(bytes);
    proof {
        lemma_hex_len(d@);
    }
    hex(d.as_slice())
}

/// What a scan decides for a file whose bytes are `bytes`, given the content
/// hash the index holds for it: `None` (skip it, unchanged) when that is these
/// bytes' hash, otherwise the hash to index it under.
pub open spec fn scan_decision(stored: Option<Seq<char>>, bytes: Seq<u8>) -> Option<Seq<char>> {
    let h = hex_of(sha256(bytes));
    if stored == Some(h) { None } else { Some(h) }
}

pub open spec fn stored_view(stored: Option<&str>) -> Option<Seq<char>> {
    match stored {
        Some(x) => Some(x@),
        None => None,
    }
}

/// The scan decision for one file (see `scan_decision`); `stored` is the hash
/// the index holds for the file, if any.
pub fn changed_hash(stored: Option<&str>, bytes: &[u8]) -> (r: Option<String>)
    ensures
        r matches Some(h) ==> scan_decision(stored_view(stored), bytes@) == Some(h@),
        r is None ==> scan_decision(stored_view(stored), bytes@) is None,
{
    let hash = content_hash(bytes);
    match stored {
        Some(h) => {
            let a = chars::chars_of(h);
            let b = chars::chars_of(hash.as_str());
            if chars::eq_chars(a.as_slice(), b.as_slice()) {
                None
            } else {
                Some(hash)
            }
        },
        None => Some(hash),
    }
}

/// Nothing is processed twice: once a file has been indexed under the hash
/// the scan chose, a later scan of the same bytes skips it.
pub proof fn lemma_indexed_then_unchanged(stored: Option<Seq<char>>, bytes: Seq<u8>)
    ensures
        scan_decision(stored, bytes) matches Some(h) ==> scan_decision(Some(h), bytes) is None,
{
}

/// What a scan did.
#[derive(Debug, Clone)]
pub struct ScanStats {
    pub indexed: usize,
    pub unchanged: usize,
    pub removed: usize,
    pub failed: usize,
    /// Knowledge objects written for the files indexed.
    pub clauses: usize,
}

impl Default for ScanStats {
    fn default() -> (r: ScanStats)
        ensures
            r.indexed == 0 && r.unchanged == 0 && r.removed == 0 && r.failed == 0 && r.clauses == 0,
    {
        ScanStats { indexed: 0, unchanged: 0, removed: 0, failed: 0, clauses: 0 }
    }
}

/// One thing that happened to one file during a scan.
#[derive(Debug, Clone, Copy)]
pub enum ScanEvent {
    /// Re-indexed, with this many knowledge objects.
    Indexed(usize),
    /// Its content hash had not changed.
    Unchanged,
    /// It could not be read, parsed or indexed, and was skipped.
    Failed,
    /// It vanished from the folder and was tombstoned.
    Removed,
}

/// The tallies after counting one event.
pub open spec fn tallied(s: ScanStats, e: ScanEvent) -> ScanStats {
    match e {
        ScanEvent::Indexed(n) => ScanStats { indexed: (s.indexed + 1) as usize, clauses: (s.clauses + n) as usize, ..s },
        ScanEvent::Unchanged => ScanStats { unchanged: (s.unchanged + 1) as usize, ..s },
        ScanEvent::Failed => ScanStats { failed: (s.failed + 1) as usize, ..s },
        ScanEvent::Removed => ScanStats { removed: (s.removed + 1) as usize, ..s },
    }
}

/// Whether counting the event keeps every tally within `usize`.
pub open spec fn fits(s: ScanStats, e: ScanEvent) -> bool {
    match e {
        ScanEvent::Indexed(n) => s.indexed < usize::MAX && s.clauses + n <= usize::MAX,
        ScanEvent::Unchanged => s.unchanged < usize::MAX,
        ScanEvent::Failed => s.failed < usize::MAX,
        ScanEvent::Removed => s.removed < usize::MAX,
    }
}

impl ScanStats {
    /// Whether counting the event keeps every tally within `usize`.
    pub fn can_record(&self, e: ScanEvent) -> (r: bool)
        ensures
            r == fits(*self, e),
    {
        match e {
            ScanEvent::Indexed(n) => self.indexed < usize::MAX && n <= usize::MAX - self.clauses,
            ScanEvent::Unchanged => self.unchanged < usize::MAX,
            ScanEvent::Failed => self.failed < usize::MAX,
            ScanEvent::Removed => self.removed < usize::MAX,
        }
    }

    /// Count one event.
    pub fn record(&mut self, e: ScanEvent)
        requires
            fits(*old(self), e),
        ensures
            *final(self) == tallied(*old(self), e),
    {
        match e {
            ScanEvent::Indexed(n) => {
                self.indexed = self.indexed + 1;
                self.clauses = self.clauses + n;
            },
            ScanEvent::Unchanged => {
                self.unchanged = self.unchanged + 1;
            },
            ScanEvent::Failed => {
                self.failed = self.failed + 1;
            },
            ScanEvent::Removed => {
                self.removed = self.removed + 1;
            },
        }
    }
}

/// The live documents not seen in this scan, in the index's order.
pub open spec fn gone(live: Seq<Seq<char>>, seen: Seq<Seq<char>>) -> Seq<Seq<char>>
    decreases live.len(),
{
    if live.len() == 0 {
        Seq::empty()
    } else {
        gone(live.drop_last(), seen) + if seen.contains(live.last()) {
            Seq::empty()
        } else {
            seq![live.last()]
        }
    }
}

fn holds(v: &Vec<String>, x: &str) -> (r: bool)
    ensures
        r == views(v@).contains(x@),
{
    let mut i: usize = 0;
    while i < v.len()
        invariant
            i <= v.len(),
            forall|k: int| 0 <= k < i ==> views(v@)[k] != x@,
        decreases v.len() - i,
    {
        if crate::model::str_eq(v[i].as_str(), x) {
            assert(views(v@)[i as int] == x@);
            return true;
        }
        i += 1;
    }
    false
}

/// The indexed documents that vanished from the folder: every live one not
/// seen in this scan, in order.
pub fn vanished(live: &Vec<String>, seen: &Vec<String>) -> (r: Vec<String>)
    ensures
        views(r@) == gone(views(live@), views(seen@)),
{
    let mut out: Vec<String> = Vec::new();
    let mut i: usize = 0;
    while i < live.len()
        invariant
            i <= live.len(),
            views(out@) == gone(views(live@).take(i as int), views(seen@)),
        decreases live.len() - i,
    {
        assert(views(live@).take(i + 1).drop_last() == views(live@).take(i as int));
        assert(views(live@).take(i + 1).last() == live@[i as int]@);
        let ghost o0 = views(out@);
        if !holds(seen, live[i].as_str()) {
            out.push(chars::copy_string(&live[i]));
            assert(views(out@) =~= o0 + seq![live@[i as int]@]);
        } else {
            assert(o0 + Seq::<Seq<char>>::empty() =~= o0);
        }
        i += 1;
    }
    assert(views(live@).take(live.len() as int) == views(live@));
    out
}

/// The text embedded for a knowledge object: its heading (or, lacking one,
/// its defined term) and its body on the next line, so short bodies still
/// carry signal; just the body when it has neither.
pub open spec fn embedding_text(c: ExtractedClause) -> Seq<char> {
    match c.heading {
        Some(h) => h@ + seq!['\n'] + c.body@,
        None => match c.term {
            Some(t) => t@ + seq!['\n'] + c.body@,
            None => c.body@,
        },
    }
}

/// The text to embed for each knowledge object, in order.
pub fn embedding_texts(clauses: &[ExtractedClause]) -> (r: Vec<String>)
    ensures
        r@.len() == clauses@.len(),
        forall|k: int| 0 <= k < r@.len() ==> (#[trigger] r@[k])@ == embedding_text(clauses@[k]),
{
    let mut out: Vec<String> = Vec::new();
    let mut i: usize = 0;
    while i < clauses.len()
        invariant
            i <= clauses.len(),
            out@.len() == i,
            forall|k: int| 0 <= k < i ==> (#[trigger] out@[k])@ == embedding_text(clauses@[k]),
        decreases clauses.len() - i,
    {
        let c = &clauses[i];
        let mut t = String::new();
        match &c.heading {
            Some(h) => {
                push_str(&mut t, h.as_str());
                t.push('\n');
            },
            None => match &c.term {
                Some(term) => {
                    push_str(&mut t, term.as_str());
                    t.push('\n');
                },
                None => {},
            },
        }
        push_str(&mut t, c.body.as_str());
        assert(t@ =~= embedding_text(clauses@[i as int]));
        out.push(t);
        i += 1;
    }
    out
}

/// The documents a scan tombstones are exactly the live ones it did not
/// see: nothing seen is ever removed, and nothing unseen is kept.
pub proof fn lemma_vanished_exact(live: Seq<Seq<char>>, seen: Seq<Seq<char>>)
    ensures
        forall|x: Seq<char>| #[trigger] gone(live, seen).contains(x) == (live.contains(x) && !seen.contains(x)),
    decreases live.len(),
{
    if live.len() > 0 {
        let init = live.drop_last();
        lemma_vanished_exact(init, seen);
        let g0 = gone(init, seen);
        let tail = if seen.contains(live.last()) { Seq::<Seq<char>>::empty() } else { seq![live.last()] };
        assert(gone(live, seen) == g0 + tail);
        assert forall|x: Seq<char>| #[trigger] gone(live, seen).contains(x) == (live.contains(x) && !seen.contains(x)) by {
            if gone(live, seen).contains(x) {
                let i = choose|i: int| 0 <= i < (g0 + tail).len() && (g0 + tail)[i] == x;
                if i < g0.len() {
                    assert(g0[i] == x);
                    assert(g0.contains(x));
                    let j = choose|j: int| 0 <= j < init.len() && init[j] == x;
                    assert(live[j] == x);
                } else {
                    assert(tail[i - g0.len()] == x);
                    assert(live[live.len() - 1] == x);
                }
            }
            if live.contains(x) && !seen.contains(x) {
                let j = choose|j: int| 0 <= j < live.len() && live[j] == x;
                if j < live.len() - 1 {
                    assert(init[j] == x);
                    assert(init.contains(x));
                    assert(g0.contains(x));
                    let i = choose|i: int| 0 <= i < g0.len() && g0[i] == x;
                    assert((g0 + tail)[i] == x);
                } else {
                    assert(tail == seq![x]);
                    assert((g0 + tail)[g0.len() as int] == x);
                }
            }
        }
    }
}

} // verus!
