//! Narrowing retrieval results: a hit is kept only when it is of the wanted
//! kind, clause type and contract type (where those are asked for).

use vstd::prelude::*;
use crate::chars::{self, eq_ignore_case};
use crate::strs::opt_view;
use crate::model::{ClauseKind, ClauseMetadata};

verus! {

/// What to keep of a search's hits. An absent filter keeps everything.
#[derive(Debug, Clone)]
pub struct Filters {
    /// A clause type, e.g. "Termination".
    pub clause_type: Option<String>,
    /// A kind of knowledge object, e.g. only definitions.
    pub kind: Option<ClauseKind>,
    /// A contract type, e.g. "Share Purchase Agreement".
    pub contract_type: Option<String>,
}

impl Default for Filters {
    fn default() -> (r: Filters)
        ensures
            r.clause_type is None,
            r.kind is None,
            r.contract_type is None,
    {
        Filters { clause_type: None, kind: None, contract_type: None }
    }
}

/// A wanted label is met by an equal one, ignoring ASCII case; an absent
/// label meets no wanted one.
pub open spec fn label_meets(want: Option<Seq<char>>, have: Option<Seq<char>>) -> bool {
    match want {
        None => true,
        Some(w) => match have {
            Some(v) => chars::lower(v) == chars::lower(w),
            None => false,
        },
    }
}

/// Whether an object of this kind and metadata passes every filter.
pub open spec fn passes(kind: ClauseKind, meta: ClauseMetadata, f: Filters) -> bool {
    &&& (f.kind matches Some(k) ==> kind == k)
    &&& label_meets(opt_view(f.clause_type), opt_view(meta.clause_type))
    &&& label_meets(opt_view(f.contract_type), opt_view(meta.contract_type))
}

fn label_meets_exec(want: &Option<String>, have: &Option<String>) -> (r: bool)
    ensures
        r == label_meets(opt_view(*want), opt_view(*have)),
{
    match want {
        None => true,
        Some(w) => match have {
            Some(v) => eq_ignore_case(v.as_str(), w.as_str()),
            None => false,
        },
    }
}

/// Whether an object of this kind and metadata passes every filter.
pub fn matches_filters(kind: ClauseKind, metadata: &ClauseMetadata, filters: &Filters) -> (r: bool)
    ensures
        r == passes(kind, *metadata, *filters),
{
    if let Some(k) = filters.kind {
        if kind != k {
            return false;
        }
    }
    label_meets_exec(&filters.clause_type, &metadata.clause_type)
        && label_meets_exec(&filters.contract_type, &metadata.contract_type)
}

} // verus!
