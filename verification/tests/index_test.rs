use draftos::index::{document_meta, term_edges};
use draftos::ingest::{changed_hash, content_hash, embedding_texts, vanished, ScanEvent, ScanStats};
use draftos::model::{ClauseKind, ClauseMetadata, ExtractedClause, Paragraph, ParsedDocument};
use draftos::retrieval::{matches_filters, Filters};
use draftos::storage::{find_by_name, sources_in_scope, SourceRecord};

fn clause(kind: ClauseKind, heading: Option<&str>, term: Option<&str>, body: &str) -> ExtractedClause {
    ExtractedClause {
        kind,
        number: None,
        seq: 0,
        depth: 0,
        heading: heading.map(str::to_string),
        term: term.map(str::to_string),
        body: body.to_string(),
        ooxml: Vec::new(),
        heading_ooxml: None,
        metadata: ClauseMetadata::default(),
    }
}

#[test]
fn term_edges_link_users_to_definitions() {
    let cs = vec![
        clause(ClauseKind::Clause, Some("Termination"), None, "Either party may terminate on 30 Business Days notice."),
        clause(ClauseKind::Definition, None, Some("Business Day"), "\"Business Day\" means a weekday."),
        clause(ClauseKind::Definition, None, Some("Purchase Price"), "\"Purchase Price\" means the amount."),
        clause(ClauseKind::Clause, Some("Payment"), None, "The Purchase Price is payable on a Business Day."),
        clause(ClauseKind::Definition, None, Some("PP"), "PP is too short to link: PP."),
    ];
    assert_eq!(term_edges(&cs), vec![(0, 1), (3, 1), (3, 2)]);
}

#[test]
fn document_meta_takes_first_labels_and_first_paragraph() {
    let mut a = clause(ClauseKind::Clause, None, None, "x");
    a.metadata.jurisdiction = Some("South Africa".into());
    let mut b = clause(ClauseKind::Clause, None, None, "y");
    b.metadata.contract_type = Some("Loan Agreement".into());
    b.metadata.jurisdiction = Some("Kenya".into());
    let doc = ParsedDocument {
        file_name: "loan.txt".into(),
        paragraphs: vec![Paragraph { text: "LOAN AGREEMENT".into(), heading_level: None, ooxml: None }],
    };
    let m = document_meta(&doc, &[a, b]);
    assert_eq!(m.contract_type.as_deref(), Some("Loan Agreement"));
    assert_eq!(m.jurisdiction.as_deref(), Some("South Africa"));
    assert_eq!(m.title.as_deref(), Some("LOAN AGREEMENT"));
    let empty = ParsedDocument { file_name: "e.txt".into(), paragraphs: vec![] };
    assert_eq!(document_meta(&empty, &[]).title, None);
}

#[test]
fn content_hash_is_sha256_hex() {
    assert_eq!(
        content_hash(b"abc"),
        "ba7816bf8f01cfea414140de5dae2223b00361a396177a9cb410ff61f20015ad"
    );
    assert_eq!(content_hash(b"").len(), 64);
}

#[test]
fn unchanged_bytes_are_skipped_and_changed_bytes_reindexed() {
    let abc = "ba7816bf8f01cfea414140de5dae2223b00361a396177a9cb410ff61f20015ad";
    // Never indexed: index it under its hash.
    assert_eq!(changed_hash(None, b"abc").as_deref(), Some(abc));
    // Indexed at these bytes: skipped.
    assert_eq!(changed_hash(Some(abc), b"abc"), None);
    // Indexed at other bytes: re-indexed under the new hash.
    let first = changed_hash(None, b"abd").unwrap();
    assert_eq!(changed_hash(Some(&first), b"abc").as_deref(), Some(abc));
    assert_eq!(changed_hash(Some(&first), b"abd"), None);
}

#[test]
fn scan_stats_tally_events() {
    let mut s = ScanStats::default();
    s.record(ScanEvent::Indexed(4));
    s.record(ScanEvent::Indexed(2));
    s.record(ScanEvent::Unchanged);
    s.record(ScanEvent::Failed);
    s.record(ScanEvent::Removed);
    assert_eq!((s.indexed, s.clauses, s.unchanged, s.failed, s.removed), (2, 6, 1, 1, 1));
}

#[test]
fn vanished_keeps_unseen_live_documents_in_order() {
    let live = vec!["a.txt".to_string(), "b.docx".to_string(), "c.pdf".to_string()];
    let seen = vec!["b.docx".to_string()];
    assert_eq!(vanished(&live, &seen), vec!["a.txt".to_string(), "c.pdf".to_string()]);
    assert!(vanished(&live, &live).is_empty());
}

#[test]
fn embedding_text_prefers_heading_then_term() {
    let cs = vec![
        clause(ClauseKind::Clause, Some("Termination"), Some("ignored"), "body one"),
        clause(ClauseKind::Definition, None, Some("Business Day"), "body two"),
        clause(ClauseKind::Other, None, None, "body three"),
    ];
    assert_eq!(
        embedding_texts(&cs),
        vec!["Termination\nbody one".to_string(), "Business Day\nbody two".to_string(), "body three".to_string()]
    );
}

#[test]
fn filters_match_kind_and_labels_ignoring_case() {
    let mut meta = ClauseMetadata::default();
    meta.clause_type = Some("Termination".into());
    meta.contract_type = Some("Loan Agreement".into());
    let all = Filters::default();
    assert!(matches_filters(ClauseKind::Clause, &meta, &all));
    let f = Filters { clause_type: Some("termination".into()), kind: Some(ClauseKind::Clause), contract_type: None };
    assert!(matches_filters(ClauseKind::Clause, &meta, &f));
    assert!(!matches_filters(ClauseKind::Definition, &meta, &f));
    let g = Filters { clause_type: None, kind: None, contract_type: Some("Share Purchase Agreement".into()) };
    assert!(!matches_filters(ClauseKind::Clause, &meta, &g));
    let h = Filters { clause_type: Some("Termination".into()), kind: None, contract_type: None };
    assert!(!matches_filters(ClauseKind::Clause, &ClauseMetadata::default(), &h));
}

fn record(name: &str, attached: bool) -> SourceRecord {
    SourceRecord {
        id: format!("id-{name}"),
        name: name.into(),
        folder: format!("/data/{name}"),
        bundle_dir: format!("/bundles/{name}"),
        attached,
        created_at: "2024-01-01T00:00:00Z".into(),
    }
}

#[test]
fn scope_selects_attached_named_sources() {
    let rs = vec![record("banking", true), record("corporate", false), record("Shipping", true)];
    assert_eq!(sources_in_scope(&rs, &vec![]), vec![0, 2]);
    assert_eq!(sources_in_scope(&rs, &vec!["shipping".to_string(), "corporate".to_string()]), vec![2]);
    assert_eq!(find_by_name(&rs, "SHIPPING"), Some(2));
    assert_eq!(find_by_name(&rs, "tax"), None);
}
