//! Parser output and extracted knowledge objects.

use vstd::prelude::*;
use crate::chars::{self, chars_of};

verus! {

/// A document as produced by the parser layer: ordered paragraphs with
/// whatever structural hints the file format exposed.
#[derive(Debug, Clone)]
pub struct ParsedDocument {
    pub file_name: String,
    pub paragraphs: Vec<Paragraph>,
}

#[derive(Debug, Clone)]
pub struct Paragraph {
    pub text: String,
    /// Heading level (1-based) when the source format declares one (e.g. DOCX
    /// paragraph styles). Heuristic heading detection happens later.
    pub heading_level: Option<u8>,
    /// The paragraph's original XML, when it came from a DOCX file, so its
    /// house style can be reproduced.
    pub ooxml: Option<String>,
}

#[derive(Debug, Clone, Copy, PartialEq, Eq, Structural)]
pub enum ClauseKind {
    Recital,
    Definition,
    Clause,
    Schedule,
    Execution,
    Other,
}

/// The stored name of a kind.
pub open spec fn kind_name(k: ClauseKind) -> Seq<char> {
    match k {
        ClauseKind::Recital => "recital"@,
        ClauseKind::Definition => "definition"@,
        ClauseKind::Clause => "clause"@,
        ClauseKind::Schedule => "schedule"@,
        ClauseKind::Execution => "execution"@,
        ClauseKind::Other => "other"@,
    }
}

/// The kind a stored name denotes; any other text is `Other`.
pub open spec fn kind_of(s: Seq<char>) -> ClauseKind {
    if s == "recital"@ {
        ClauseKind::Recital
    } else if s == "definition"@ {
        ClauseKind::Definition
    } else if s == "clause"@ {
        ClauseKind::Clause
    } else if s == "schedule"@ {
        ClauseKind::Schedule
    } else if s == "execution"@ {
        ClauseKind::Execution
    } else {
        ClauseKind::Other
    }
}

/// Whether two strings hold the same characters.
pub fn str_eq(a: &str, b: &str) -> (r: bool)
    ensures
        r == (a@ == b@),
{
    let x = chars_of(a);
    let y = chars_of(b);
    if x.len() != y.len() {
        return false;
    }
    let mut i: usize = 0;
    while i < x.len()
        invariant
            i <= x.len() == y.len(),
            x@ == a@,
            y@ == b@,
            forall|j: int| 0 <= j < i ==> x@[j] == y@[j],
        decreases x.len() - i,
    {
        if x[i] != y[i] {
            return false;
        }
        i += 1;
    }
    assert(x@ =~= y@);
    true
}

impl ClauseKind {
    pub fn as_str(&self) -> (r: &'static str)
        ensures
            r@ == kind_name(*self),
    {
        match self {
            ClauseKind::Recital => "recital",
            ClauseKind::Definition => "definition",
            ClauseKind::Clause => "clause",
            ClauseKind::Schedule => "schedule",
            ClauseKind::Execution => "execution",
            ClauseKind::Other => "other",
        }
    }

    pub fn parse(s: &str) -> (r: ClauseKind)
        ensures
            r == kind_of(s@),
    {
        if str_eq(s, "recital") {
            ClauseKind::Recital
        } else if str_eq(s, "definition") {
            ClauseKind::Definition
        } else if str_eq(s, "clause") {
            ClauseKind::Clause
        } else if str_eq(s, "schedule") {
            ClauseKind::Schedule
        } else if str_eq(s, "execution") {
            ClauseKind::Execution
        } else {
            ClauseKind::Other
        }
    }
}

/// Reading back a kind's stored name gives the kind.
pub proof fn lemma_kind_name_roundtrip(k: ClauseKind)
    ensures
        kind_of(kind_name(k)) == k,
{
    reveal_strlit("recital");
    reveal_strlit("definition");
    reveal_strlit("clause");
    reveal_strlit("schedule");
    reveal_strlit("execution");
    reveal_strlit("other");
    assert("recital"@.len() == 7);
    assert("definition"@.len() == 10);
    assert("clause"@.len() == 6);
    assert("schedule"@.len() == 8);
    assert("execution"@.len() == 9);
    assert("other"@.len() == 5);
    assert("other"@[0] == 'o');
    assert("clause"@[0] == 'c');
}

/// Metadata attached to every extracted clause. All fields optional:
/// extraction fills what it can.
#[derive(Debug, Clone)]
pub struct ClauseMetadata {
    pub contract_type: Option<String>,
    pub clause_type: Option<String>,
    pub jurisdiction: Option<String>,
    pub industry: Option<String>,
    pub risk: Option<String>,
    pub language: Option<String>,
    pub version: Option<String>,
    /// Relative path of the file this clause came from.
    pub source: Option<String>,
    pub approved: Option<bool>,
}

impl ClauseMetadata {
    pub open spec fn is_empty(&self) -> bool {
        &&& self.contract_type is None
        &&& self.clause_type is None
        &&& self.jurisdiction is None
        &&& self.industry is None
        &&& self.risk is None
        &&& self.language is None
        &&& self.version is None
        &&& self.source is None
        &&& self.approved is None
    }
}

impl Default for ClauseMetadata {
    fn default() -> (r: ClauseMetadata)
        ensures
            r.is_empty(),
    {
        ClauseMetadata {
            contract_type: None,
            clause_type: None,
            jurisdiction: None,
            industry: None,
            risk: None,
            language: None,
            version: None,
            source: None,
            approved: None,
        }
    }
}

/// One extracted knowledge object: a clause, definition, recital, schedule…
#[derive(Debug, Clone)]
pub struct ExtractedClause {
    pub kind: ClauseKind,
    /// Clause number as it appeared in the document ("12", "12.3").
    pub number: Option<String>,
    /// Position among the objects segmented from the document.
    pub seq: usize,
    /// Nesting depth implied by the number (dots in "5.1.2" → 2).
    pub depth: u8,
    pub heading: Option<String>,
    /// The defined term, for `kind == Definition` ("Effective Date").
    pub term: Option<String>,
    pub body: String,
    /// Original XML of the body paragraphs, when the document was a DOCX file.
    pub ooxml: Vec<String>,
    /// Original XML of the heading paragraph, when the document was a DOCX file.
    pub heading_ooxml: Option<String>,
    pub metadata: ClauseMetadata,
}

} // verus!
