//! The registry of knowledge sources: which bundles exist, where their
//! watched folders are, and whether they are attached. Drafting, searching
//! and asking draw only on attached sources, optionally narrowed to a scope
//! of names.

use vstd::prelude::*;
use crate::strs::{self, views, has_ci};

verus! {

/// One registered knowledge source.
#[derive(Debug, Clone)]
pub struct SourceRecord {
    pub id: String,
    pub name: String,
    /// The watched folder.
    pub folder: String,
    /// Where the source's index bundle lives.
    pub bundle_dir: String,
    pub attached: bool,
    pub created_at: String,
}

/// Whether a source is drawn on: it is attached and, when the scope names
/// any sources, it is one of them (names compared ignoring ASCII case).
pub open spec fn in_scope(r: SourceRecord, scope: Seq<Seq<char>>) -> bool {
    r.attached && (scope.len() == 0 || has_ci(scope, r.name@))
}

/// Positions of the sources drawn on, in registry order.
pub open spec fn scoped(rs: Seq<SourceRecord>, scope: Seq<Seq<char>>) -> Seq<int>
    decreases rs.len(),
{
    if rs.len() == 0 {
        Seq::empty()
    } else {
        scoped(rs.drop_last(), scope) + if in_scope(rs.last(), scope) {
            seq![rs.len() - 1]
        } else {
            Seq::empty()
        }
    }
}

/// The positions of the attached sources within `scope` (every attached
/// source when the scope is empty), in registry order.
pub fn sources_in_scope(records: &[SourceRecord], scope: &Vec<String>) -> (r: Vec<usize>)
    ensures
        r@.map_values(|i: usize| i as int) == scoped(records@, views(scope@)),
{
    let mut out: Vec<usize> = Vec::new();
    let mut i: usize = 0;
    while i < records.len()
        invariant
            i <= records.len(),
            out@.map_values(|k: usize| k as int) == scoped(records@.take(i as int), views(scope@)),
        decreases records.len() - i,
    {
        assert(records@.take(i + 1).drop_last() == records@.take(i as int));
        let ghost o0 = out@.map_values(|k: usize| k as int);
        let rec = &records[i];
        let wanted = rec.attached && (scope.len() == 0 || strs::any_ci(scope, rec.name.as_str()));
        if wanted {
            out.push(i);
            assert(out@.map_values(|k: usize| k as int) =~= o0 + seq![i as int]);
        } else {
            assert(o0 + Seq::<int>::empty() =~= o0);
        }
        i += 1;
    }
    assert(records@.take(records.len() as int) == records@);
    out
}

/// The position of the first source named `name`, ignoring ASCII case.
pub open spec fn source_named(rs: Seq<SourceRecord>, name: Seq<char>) -> int {
    strs::pos_ci(rs.map_values(|r: SourceRecord| r.name@), name)
}

/// The first registered source whose name is `name` (ASCII case ignored).
pub fn find_by_name(records: &[SourceRecord], name: &str) -> (r: Option<usize>)
    ensures
        match r {
            Some(i) => i as int == source_named(records@, name@),
            None => source_named(records@, name@) == -1,
        },
{
    let mut names: Vec<String> = Vec::new();
    let mut i: usize = 0;
    while i < records.len()
        invariant
            i <= records.len(),
            views(names@) == records@.take(i as int).map_values(|r: SourceRecord| r.name@),
        decreases records.len() - i,
    {
        let ghost n0 = views(names@);
        names.push(crate::chars::copy_string(&records[i].name));
        assert(views(names@) =~= n0.push(records@[i as int].name@));
        assert(records@.take(i + 1).map_values(|r: SourceRecord| r.name@)
            =~= records@.take(i as int).map_values(|r: SourceRecord| r.name@).push(records@[i as int].name@));
        i += 1;
    }
    assert(records@.take(records.len() as int) == records@);
    strs::find_ci(&names, name)
}

/// Only attached sources are ever drawn on: a source is drawn on exactly
/// when it is attached and, if the scope names any sources, named in it;
/// with an empty scope, that is every attached source.
pub proof fn lemma_scope_exact(rs: Seq<SourceRecord>, scope: Seq<Seq<char>>)
    ensures
        forall|i: int| #[trigger] scoped(rs, scope).contains(i) == (0 <= i < rs.len() && in_scope(rs[i], scope)),
    decreases rs.len(),
{
    if rs.len() > 0 {
        let init = rs.drop_last();
        lemma_scope_exact(init, scope);
        let s0 = scoped(init, scope);
        let last = rs.len() - 1;
        let tail = if in_scope(rs.last(), scope) { seq![last] } else { Seq::<int>::empty() };
        assert(scoped(rs, scope) == s0 + tail);
        assert forall|i: int| #[trigger] scoped(rs, scope).contains(i) == (0 <= i < rs.len() && in_scope(rs[i], scope)) by {
            if scoped(rs, scope).contains(i) {
                let k = choose|k: int| 0 <= k < (s0 + tail).len() && (s0 + tail)[k] == i;
                if k < s0.len() {
                    assert(s0[k] == i);
                    assert(s0.contains(i));
                    assert(rs[i] == init[i]);
                } else {
                    assert(tail[k - s0.len()] == i);
                }
            }
            if 0 <= i < rs.len() && in_scope(rs[i], scope) {
                if i < last {
                    assert(rs[i] == init[i]);
                    assert(s0.contains(i));
                    let k = choose|k: int| 0 <= k < s0.len() && s0[k] == i;
                    assert((s0 + tail)[k] == i);
                } else {
                    assert((s0 + tail)[s0.len() as int] == i);
                }
            }
        }
    }
}

} // verus!
