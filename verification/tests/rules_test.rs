use draftos::checklist::{
    all_clause_types, conflicts, is_required, missing_required, order_index, required_clause_types,
    rule_for,
};

#[test]
fn nda_requires_confidentiality_before_boilerplate() {
    let req = required_clause_types("Non-Disclosure Agreement");
    assert!(req.contains(&"Confidentiality".to_string()));
    let conf = order_index("Non-Disclosure Agreement", "Confidentiality");
    let gov = order_index("Non-Disclosure Agreement", "Governing Law");
    assert!(conf < gov, "confidentiality should precede governing law");
}

#[test]
fn unknown_contract_type_has_no_checklist() {
    assert!(required_clause_types("Aircraft Wet Lease").is_empty());
    assert!(missing_required("Aircraft Wet Lease", &[]).is_empty());
}

#[test]
fn audit_reports_absent_required_types() {
    let present = vec!["Definitions".to_string(), "Confidentiality".to_string()];
    let missing = missing_required("Non-Disclosure Agreement", &present);
    assert!(missing.contains(&"Governing Law".to_string()));
    assert!(!missing.contains(&"Confidentiality".to_string()));
}

#[test]
fn unknown_label_sorts_after_known_ones() {
    let known = order_index("Non-Disclosure Agreement", "Governing Law");
    let unknown = order_index("Non-Disclosure Agreement", "Laytime and Demurrage");
    assert!(unknown > known);
}

#[test]
fn rule_lookup_ignores_case() {
    assert!(rule_for("non-disclosure agreement").is_some());
    assert!(rule_for("Aircraft Wet Lease").is_none());
    assert!(is_required("Non-Disclosure Agreement", "governing law"));
    assert!(!is_required("Non-Disclosure Agreement", "Laytime and Demurrage"));
}

#[test]
fn all_types_cover_required_ones() {
    let all = all_clause_types("Non-Disclosure Agreement");
    for r in required_clause_types("Non-Disclosure Agreement") {
        assert!(all.contains(&r));
    }
    assert!(conflicts(&["Confidentiality".to_string()]).is_empty());
}
