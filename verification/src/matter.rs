//! The structured intake a draft is built from, the manifest of a knowledge
//! source, and the precedent clauses a search returns.

use vstd::prelude::*;
use crate::model::ClauseKind;
use crate::strs::owned;

verus! {

/// The facts a draft is built from.
#[derive(Debug, Clone)]
pub struct MatterSpec {
    pub matter_id: String,
    /// Document title; if empty the assembler uses the contract type.
    pub title: String,
    pub contract_type: String,
    pub jurisdiction: Option<String>,
    pub language: String,
    pub parties: Vec<PartyInput>,
    /// Values for `{{variable}}` placeholders, as (name, value) pairs with
    /// distinct names in ascending order.
    pub variables: Vec<(String, String)>,
    /// Restrict retrieval to these source names; empty means all attached.
    pub source_scope: Vec<String>,
    /// Draft from this specific precedent (matched against a document's file
    /// path or title).
    pub skeleton_precedent: Option<String>,
    /// Only draw on precedent explicitly marked approved.
    pub approved_only: bool,
    /// Extra clause types to include beyond the contract-type rule.
    pub include_clause_types: Vec<String>,
    /// Clause types to exclude even if the rule marks them required.
    pub exclude_clause_types: Vec<String>,
}

/// The language a matter is drafted in when the intake names none.
pub fn default_language() -> (r: String)
    ensures
        r@ == "English"@,
{
    owned("English")
}

#[derive(Debug, Clone)]
pub struct PartyInput {
    pub id: String,
    pub name: String,
    /// The defined role, e.g. "Disclosing Party", "Seller", "Lender".
    pub role: String,
    pub entity_type: Option<String>,
    pub reg_no: Option<String>,
    pub address: Option<String>,
}

/// The descriptor of a knowledge-source bundle: its identity, watched folder
/// and the embedding model it was built with.
#[derive(Debug, Clone)]
pub struct SourceManifest {
    pub id: String,
    pub name: String,
    /// The watched folder on the user's filesystem.
    pub folder: String,
    /// Embedding model this bundle was built with.
    pub embed_model: String,
    pub embed_dims: usize,
    pub created_at: String,
    pub schema_version: u32,
}

impl SourceManifest {
    pub const CURRENT_SCHEMA: u32 = 1;
}

/// A precedent clause as retrieval returns it, with its provenance; its
/// relevance score has already done its work in choosing it.
#[derive(Debug, Clone)]
pub struct PrecedentClause {
    pub clause_id: String,
    pub source_name: String,
    pub file: String,
    pub kind: ClauseKind,
    pub number: Option<String>,
    pub heading: Option<String>,
    pub term: Option<String>,
    pub body: String,
    /// Original OOXML of the clause's body paragraphs, when it came from DOCX.
    pub ooxml: Vec<String>,
}

} // verus!
