//! The contract-type checklist: which clause types a document of a given
//! contract type is expected to contain, in canonical drafting order.
//!
//! The checklist is advisory. It never decides a document's structure (that
//! comes from the precedents); it lets the assembler report a missing clause
//! type and decide where a clause the precedent lacked belongs. An unknown
//! contract type simply has no checklist.

use vstd::prelude::*;
use crate::chars;
use crate::strs::{self, views, pos_ci, owned, owned_all, find_ci, any_ci};

verus! {

/// Ordered clause requirements for one contract type.
pub struct ContractRule {
    pub contract_type: String,
    /// Clause types that must appear, in canonical drafting order.
    pub required: Vec<String>,
    /// Clause types commonly included; assembled if a precedent exists.
    pub optional: Vec<String>,
}

/// A checklist entry as plain sequences: (contract type, required, optional).
pub type RuleView = (Seq<char>, Seq<Seq<char>>, Seq<Seq<char>>);

impl ContractRule {
    pub open spec fn view_rule(&self) -> RuleView {
        (self.contract_type@, views(self.required@), views(self.optional@))
    }
}

/// The checklist table.
pub open spec fn rule_table() -> Seq<RuleView> {
    seq![
        ("Non-Disclosure Agreement"@,
            seq!["Definitions"@, "Confidentiality"@, "Breach"@, "Termination"@, "Governing Law"@, "Notices"@],
            seq!["Data Protection"@, "Dispute Resolution"@, "General"@]),
        ("Share Purchase Agreement"@,
            seq!["Definitions"@, "Payment"@, "Warranties"@, "Indemnity"@, "Confidentiality"@, "Breach"@,
                "Termination"@, "Governing Law"@, "Notices"@],
            seq!["Restraint of Trade"@, "Dispute Resolution"@, "General"@]),
        ("Loan Agreement"@,
            seq!["Definitions"@, "Payment"@, "Warranties"@, "Breach"@, "Governing Law"@, "Notices"@],
            seq!["Insurance"@, "Indemnity"@, "Dispute Resolution"@, "General"@]),
        ("Employment Agreement"@,
            seq!["Definitions"@, "Payment"@, "Confidentiality"@, "Restraint of Trade"@, "Termination"@,
                "Governing Law"@, "Notices"@],
            seq!["Intellectual Property"@, "Data Protection"@, "General"@]),
        ("Service Agreement"@,
            seq!["Definitions"@, "Payment"@, "Warranties"@, "Limitation of Liability"@, "Confidentiality"@,
                "Termination"@, "Governing Law"@, "Notices"@],
            seq!["Intellectual Property"@, "Indemnity"@, "Data Protection"@, "General"@]),
        ("Lease Agreement"@,
            seq!["Definitions"@, "Payment"@, "Breach"@, "Termination"@, "Governing Law"@, "Notices"@],
            seq!["Insurance"@, "General"@])
    ]
}

/// Canonical order for clause types a contract type's checklist does not list.
pub open spec fn generic_order() -> Seq<Seq<char>> {
    seq![
        "Definitions"@, "Payment"@, "Warranties"@, "Indemnity"@, "Intellectual Property"@,
        "Confidentiality"@, "Limitation of Liability"@, "Restraint of Trade"@, "Insurance"@,
        "Assignment"@, "Breach"@, "Termination"@, "Force Majeure"@, "Data Protection"@,
        "Dispute Resolution"@, "Governing Law"@, "Notices"@, "General"@
    ]
}

/// Clause-type pairs that must never coexist. None is listed: each needs a
/// documented legal reason before it is added.
pub open spec fn conflict_table() -> Seq<(Seq<char>, Seq<char>)> {
    Seq::empty()
}

pub open spec fn rule_types() -> Seq<Seq<char>> {
    rule_table().map_values(|r: RuleView| r.0)
}

/// The checklist entry for a contract type (first match, ignoring ASCII case).
pub open spec fn rule_of(contract_type: Seq<char>) -> Option<RuleView> {
    let p = pos_ci(rule_types(), contract_type);
    if p < 0 {
        None
    } else {
        Some(rule_table()[p])
    }
}

pub open spec fn required_of(contract_type: Seq<char>) -> Seq<Seq<char>> {
    match rule_of(contract_type) {
        Some(r) => r.1,
        None => Seq::empty(),
    }
}

pub open spec fn all_of(contract_type: Seq<char>) -> Seq<Seq<char>> {
    match rule_of(contract_type) {
        Some(r) => r.1 + r.2,
        None => Seq::empty(),
    }
}

/// Canonical drafting position of a clause type.
pub open spec fn order_of(contract_type: Seq<char>, clause_type: Seq<char>) -> int {
    let order = all_of(contract_type);
    let i = pos_ci(order, clause_type);
    if i >= 0 {
        i
    } else {
        let g = pos_ci(generic_order(), clause_type);
        if g >= 0 {
            order.len() + g
        } else {
            (order.len() + generic_order().len()) as int
        }
    }
}

/// The entries of `list` that `present` does not hold (ignoring ASCII case),
/// in order.
pub open spec fn absent_from(list: Seq<Seq<char>>, present: Seq<Seq<char>>) -> Seq<Seq<char>>
    decreases list.len(),
{
    if list.len() == 0 {
        Seq::empty()
    } else {
        let rest = absent_from(list.drop_last(), present);
        if pos_ci(present, list.last()) < 0 {
            rest.push(list.last())
        } else {
            rest
        }
    }
}

/// The conflicting pairs of which both members are present.
pub open spec fn conflicts_in(table: Seq<(Seq<char>, Seq<char>)>, present: Seq<Seq<char>>) -> Seq<(Seq<char>, Seq<char>)>
    decreases table.len(),
{
    if table.len() == 0 {
        Seq::empty()
    } else {
        let rest = conflicts_in(table.drop_last(), present);
        let (a, b) = table.last();
        if pos_ci(present, a) >= 0 && pos_ci(present, b) >= 0 {
            rest.push((a, b))
        } else {
            rest
        }
    }
}

fn rule(contract_type: &str, required: &[&str], optional: &[&str]) -> (r: ContractRule)
    ensures
        r.view_rule() == (contract_type@, strs::str_views(required@), strs::str_views(optional@)),
{
    ContractRule {
        contract_type: owned(contract_type),
        required: owned_all(required),
        optional: owned_all(optional),
    }
}

fn rules() -> (r: Vec<ContractRule>)
    ensures
        r@.map_values(|x: ContractRule| x.view_rule()) == rule_table(),
{
    let mut r: Vec<ContractRule> = Vec::new();
    r.push(rule("Non-Disclosure Agreement",
        &["Definitions", "Confidentiality", "Breach", "Termination", "Governing Law", "Notices"],
        &["Data Protection", "Dispute Resolution", "General"]));
    r.push(rule("Share Purchase Agreement",
        &["Definitions", "Payment", "Warranties", "Indemnity", "Confidentiality", "Breach",
            "Termination", "Governing Law", "Notices"],
        &["Restraint of Trade", "Dispute Resolution", "General"]));
    r.push(rule("Loan Agreement",
        &["Definitions", "Payment", "Warranties", "Breach", "Governing Law", "Notices"],
        &["Insurance", "Indemnity", "Dispute Resolution", "General"]));
    r.push(rule("Employment Agreement",
        &["Definitions", "Payment", "Confidentiality", "Restraint of Trade", "Termination",
            "Governing Law", "Notices"],
        &["Intellectual Property", "Data Protection", "General"]));
    r.push(rule("Service Agreement",
        &["Definitions", "Payment", "Warranties", "Limitation of Liability", "Confidentiality",
            "Termination", "Governing Law", "Notices"],
        &["Intellectual Property", "Indemnity", "Data Protection", "General"]));
    r.push(rule("Lease Agreement",
        &["Definitions", "Payment", "Breach", "Termination", "Governing Law", "Notices"],
        &["Insurance", "General"]));
    assert(r@[0].view_rule() == rule_table()[0]);
    assert(r@[1].view_rule() == rule_table()[1]);
    assert(r@[2].view_rule() == rule_table()[2]);
    assert(r@[3].view_rule() == rule_table()[3]);
    assert(r@[4].view_rule() == rule_table()[4]);
    assert(r@[5].view_rule() == rule_table()[5]);
    assert(r@.map_values(|x: ContractRule| x.view_rule()) =~= rule_table());
    r
}

fn generic() -> (r: Vec<String>)
    ensures
        views(r@) == generic_order(),
{
    let r = owned_all(&["Definitions", "Payment", "Warranties", "Indemnity", "Intellectual Property",
        "Confidentiality", "Limitation of Liability", "Restraint of Trade", "Insurance",
        "Assignment", "Breach", "Termination", "Force Majeure", "Data Protection",
        "Dispute Resolution", "Governing Law", "Notices", "General"]);
    assert(views(r@) =~= generic_order());
    r
}

/// The checklist entry for a contract type, matched ignoring ASCII case.
pub fn rule_for(contract_type: &str) -> (r: Option<ContractRule>)
    ensures
        match r {
            Some(rule) => rule_of(contract_type@) == Some(rule.view_rule()),
            None => rule_of(contract_type@) is None,
        },
{
    let mut table = rules();
    let ghost tv = table@.map_values(|x: ContractRule| x.view_rule());
    let mut types: Vec<String> = Vec::new();
    let mut i: usize = 0;
    while i < table.len()
        invariant
            i <= table.len(),
            tv == rule_table(),
            tv == table@.map_values(|x: ContractRule| x.view_rule()),
            views(types@) == rule_types().take(i as int),
        decreases table.len() - i,
    {
        let ghost t0 = types@;
        types.push(table[i].contract_type.clone());
        i += 1;
        assert(views(types@) =~= views(t0).push(tv[i - 1].0));
        assert(rule_types().take(i as int) =~= rule_types().take((i - 1) as int).push(rule_table()[i - 1].0));
    }
    assert(rule_types().take(table.len() as int) == rule_types());
    match find_ci(&types, contract_type) {
        Some(p) => {
            proof {
                strs::lemma_pos_ci(rule_types(), contract_type@);
            }
            let rule = table.swap_remove(p);
            assert(rule.view_rule() == tv[p as int]);
            Some(rule)
        },
        None => None,
    }
}

/// Clause types a document of this contract type is expected to contain, in
/// order. An unknown contract type has no checklist: the result is empty.
pub fn required_clause_types(contract_type: &str) -> (r: Vec<String>)
    ensures
        views(r@) == required_of(contract_type@),
{
    match rule_for(contract_type) {
        Some(rule) => rule.required,
        None => Vec::new(),
    }
}

/// Required followed by optional clause types; empty for an unknown type.
pub fn all_clause_types(contract_type: &str) -> (r: Vec<String>)
    ensures
        views(r@) == all_of(contract_type@),
{
    match rule_for(contract_type) {
        Some(rule) => {
            let mut all = rule.required;
            let mut opt = rule.optional;
            let ghost a = views(all@);
            let ghost o = views(opt@);
            all.append(&mut opt);
            assert(views(all@) =~= a + o);
            all
        },
        None => Vec::new(),
    }
}

/// Where a clause type belongs in canonical drafting order: its position in
/// the contract type's checklist; failing that, after the checklist at its
/// position in the generic order; failing that, after everything.
pub fn order_index(contract_type: &str, clause_type: &str) -> (r: usize)
    ensures
        r == order_of(contract_type@, clause_type@),
{
    let order = all_clause_types(contract_type);
    proof {
        strs::lemma_pos_ci(views(order@), clause_type@);
        strs::lemma_pos_ci(generic_order(), clause_type@);
    }
    match find_ci(&order, clause_type) {
        Some(i) => i,
        None => {
            let g = generic();
            assert(g.len() == 18);
            assert(order.len() <= 13) by {
                reveal_with_fuel(pos_ci, 7);
            }
            match find_ci(&g, clause_type) {
                Some(j) => order.len() + j,
                None => order.len() + g.len(),
            }
        },
    }
}

/// Whether a clause type is on the contract type's required checklist.
pub fn is_required(contract_type: &str, clause_type: &str) -> (r: bool)
    ensures
        r == (pos_ci(required_of(contract_type@), clause_type@) >= 0),
{
    let req = required_clause_types(contract_type);
    any_ci(&req, clause_type)
}

/// The entries of `list` that `present` does not hold, ignoring ASCII case,
/// in order.
pub fn absent_among(list: &Vec<String>, present: &[String]) -> (r: Vec<String>)
    ensures
        views(r@) == absent_from(views(list@), views(present@)),
{
    let present_v: Vec<String> = strs::copy_all(present);
    let mut out: Vec<String> = Vec::new();
    let mut i: usize = 0;
    while i < list.len()
        invariant
            i <= list.len(),
            views(present_v@) == views(present@),
            views(out@) == absent_from(views(list@).take(i as int), views(present@)),
        decreases list.len() - i,
    {
        let ghost o0 = views(out@);
        assert(views(list@).take(i + 1).drop_last() == views(list@).take(i as int));
        assert(views(list@)[i as int] == list@[i as int]@);
        if !any_ci(&present_v, list[i].as_str()) {
            out.push(list[i].clone());
            assert(views(out@) =~= o0.push(list@[i as int]@));
        }
        i += 1;
    }
    assert(views(list@).take(list.len() as int) == views(list@));
    out
}

/// The required clause types absent from `present` (ignoring ASCII case), in
/// checklist order. Empty when the contract type has no checklist.
pub fn missing_required(contract_type: &str, present: &[String]) -> (r: Vec<String>)
    ensures
        views(r@) == absent_from(required_of(contract_type@), views(present@)),
{
    let req = required_clause_types(contract_type);
    absent_among(&req, present)
}

/// Conflicting clause-type pairs present in a set.
pub fn conflicts(clause_types: &[String]) -> (r: Vec<(String, String)>)
    ensures
        r@.map_values(|p: (String, String)| (p.0@, p.1@)) == conflicts_in(conflict_table(), views(clause_types@)),
{
    let table: Vec<(String, String)> = Vec::new();
    assert(table@.map_values(|p: (String, String)| (p.0@, p.1@)) =~= conflict_table());
    let present_v: Vec<String> = strs::copy_all(clause_types);
    let mut out: Vec<(String, String)> = Vec::new();
    let mut i: usize = 0;
    while i < table.len()
        invariant
            i <= table.len(),
            table@.map_values(|p: (String, String)| (p.0@, p.1@)) == conflict_table(),
            views(present_v@) == views(clause_types@),
            out@.map_values(|p: (String, String)| (p.0@, p.1@))
                == conflicts_in(conflict_table().take(i as int), views(clause_types@)),
        decreases table.len() - i,
    {
        assert(false);
        i += 1;
    }
    assert(conflict_table().take(0) == conflict_table());
    out
}

// ---------------------------------------------------------------------------
// Laws
// ---------------------------------------------------------------------------

/// An unknown contract type has no checklist: nothing is required, nothing is
/// listed, and an audit reports nothing missing.
pub proof fn lemma_unknown_type_has_no_checklist(contract_type: Seq<char>, present: Seq<Seq<char>>)
    requires
        pos_ci(rule_types(), contract_type) < 0,
    ensures
        required_of(contract_type) == Seq::<Seq<char>>::empty(),
        all_of(contract_type) == Seq::<Seq<char>>::empty(),
        absent_from(required_of(contract_type), present) == Seq::<Seq<char>>::empty(),
{
}

/// The audit is exact: a clause type is reported missing if and only if it is
/// required and absent from what is present.
pub proof fn lemma_missing_is_required_and_absent(list: Seq<Seq<char>>, present: Seq<Seq<char>>, x: Seq<char>)
    ensures
        absent_from(list, present).contains(x) <==> (list.contains(x) && pos_ci(present, x) < 0),
    decreases list.len(),
{
    if list.len() > 0 {
        lemma_missing_is_required_and_absent(list.drop_last(), present, x);
        assert(list == list.drop_last().push(list.last()));
        if list.drop_last().contains(x) {
            let i = choose|i: int| 0 <= i < list.drop_last().len() && list.drop_last()[i] == x;
            assert(list[i] == x);
        }
        if list.contains(x) && x != list.last() {
            let i = choose|i: int| 0 <= i < list.len() && list[i] == x;
            assert(list.drop_last()[i] == x);
        }
        let rest = absent_from(list.drop_last(), present);
        if rest.contains(x) {
            let i = choose|i: int| 0 <= i < rest.len() && rest[i] == x;
            assert(rest.push(list.last())[i] == x);
        }
        if pos_ci(present, list.last()) < 0 && absent_from(list, present).contains(x) && x != list.last() {
            let i = choose|i: int| 0 <= i < rest.len() + 1 && rest.push(list.last())[i] == x;
            assert(rest[i] == x);
        }
        if pos_ci(present, list.last()) < 0 {
            assert(rest.push(list.last())[rest.len() as int] == list.last());
        }
    }
}

/// A clause type on the contract type's checklist sorts before any label
/// that neither the checklist nor the generic order knows.
pub proof fn lemma_listed_sorts_before_unlisted(contract_type: Seq<char>, known: Seq<char>, unknown: Seq<char>)
    requires
        pos_ci(all_of(contract_type), known) >= 0 || pos_ci(generic_order(), known) >= 0,
        pos_ci(all_of(contract_type), unknown) < 0,
        pos_ci(generic_order(), unknown) < 0,
    ensures
        order_of(contract_type, known) < order_of(contract_type, unknown),
{
    strs::lemma_pos_ci(all_of(contract_type), known);
    strs::lemma_pos_ci(generic_order(), known);
}

/// A required clause type is always also on the full checklist.
pub proof fn lemma_required_within_all(contract_type: Seq<char>, x: Seq<char>)
    ensures
        pos_ci(required_of(contract_type), x) >= 0 ==> pos_ci(all_of(contract_type), x) >= 0,
{
    strs::lemma_pos_ci(required_of(contract_type), x);
    strs::lemma_pos_ci(all_of(contract_type), x);
    if pos_ci(required_of(contract_type), x) >= 0 {
        let i = pos_ci(required_of(contract_type), x);
        match rule_of(contract_type) {
            Some(r) => {
                assert((r.1 + r.2)[i] == r.1[i]);
            },
            None => {},
        }
    }
}

/// The checklist: each contract type it knows, in the order they are
/// looked up, with its required clause types in canonical drafting order and
/// its optional ones.
pub proof fn lemma_checklist_as_listed()
    ensures
        ({
            let t = rule_table();
            &&& t.len() == 6
            &&& t[0].0 == "Non-Disclosure Agreement"@
            &&& t[0].1 =~= seq!["Definitions"@, "Confidentiality"@, "Breach"@, "Termination"@, "Governing Law"@, "Notices"@]
            &&& t[0].2 =~= seq!["Data Protection"@, "Dispute Resolution"@, "General"@]
            &&& t[1].0 == "Share Purchase Agreement"@
            &&& t[1].1 =~= seq!["Definitions"@, "Payment"@, "Warranties"@, "Indemnity"@, "Confidentiality"@, "Breach"@, "Termination"@, "Governing Law"@, "Notices"@]
            &&& t[1].2 =~= seq!["Restraint of Trade"@, "Dispute Resolution"@, "General"@]
            &&& t[2].0 == "Loan Agreement"@
            &&& t[2].1 =~= seq!["Definitions"@, "Payment"@, "Warranties"@, "Breach"@, "Governing Law"@, "Notices"@]
            &&& t[2].2 =~= seq!["Insurance"@, "Indemnity"@, "Dispute Resolution"@, "General"@]
            &&& t[3].0 == "Employment Agreement"@
            &&& t[3].1 =~= seq!["Definitions"@, "Payment"@, "Confidentiality"@, "Restraint of Trade"@, "Termination"@, "Governing Law"@, "Notices"@]
            &&& t[3].2 =~= seq!["Intellectual Property"@, "Data Protection"@, "General"@]
            &&& t[4].0 == "Service Agreement"@
            &&& t[4].1 =~= seq!["Definitions"@, "Payment"@, "Warranties"@, "Limitation of Liability"@, "Confidentiality"@, "Termination"@, "Governing Law"@, "Notices"@]
            &&& t[4].2 =~= seq!["Intellectual Property"@, "Indemnity"@, "Data Protection"@, "General"@]
            &&& t[5].0 == "Lease Agreement"@
            &&& t[5].1 =~= seq!["Definitions"@, "Payment"@, "Breach"@, "Termination"@, "Governing Law"@, "Notices"@]
            &&& t[5].2 =~= seq!["Insurance"@, "General"@]
        }),
        generic_order() =~= seq!["Definitions"@, "Payment"@, "Warranties"@, "Indemnity"@, "Intellectual Property"@, "Confidentiality"@, "Limitation of Liability"@, "Restraint of Trade"@, "Insurance"@, "Assignment"@, "Breach"@, "Termination"@, "Force Majeure"@, "Data Protection"@, "Dispute Resolution"@, "Governing Law"@, "Notices"@, "General"@],
        conflict_table().len() == 0,
{
}

} // verus!
