use draftos::model::{ClauseKind, Paragraph, ParsedDocument};

fn doc(paras: &[(&str, Option<u8>)]) -> ParsedDocument {
    ParsedDocument {
        file_name: "NDA Agreement.txt".to_string(),
        paragraphs: paras
            .iter()
            .map(|(t, h)| Paragraph {
                text: t.to_string(),
                heading_level: *h,
                ooxml: None,
            })
            .collect(),
    }
}

#[test]
fn splits_numbered_and_allcaps_headings_into_clauses() {
    let d = doc(&[
        ("NON-DISCLOSURE AGREEMENT", None),
        ("entered into between Acme (Pty) Ltd and Beta (Pty) Ltd, together the parties hereto.", None),
        ("2. CONFIDENTIALITY OBLIGATIONS", None),
        ("The Receiving Party shall keep all Confidential Information strictly confidential at all times.", None),
        ("3. TERMINATION", None),
        ("Either party may terminate this Agreement on thirty days written notice to the other party.", None),
    ]);
    let clauses = draftos::extract::extract(&d, "nda.txt");

    let headings: Vec<_> = clauses.iter().filter_map(|c| c.heading.clone()).collect();
    assert!(headings.iter().any(|h| h.contains("CONFIDENTIALITY")));
    assert!(headings.iter().any(|h| h.contains("TERMINATION")));

    let term = clauses
        .iter()
        .find(|c| c.heading.as_deref() == Some("TERMINATION"))
        .unwrap();
    assert_eq!(term.kind, ClauseKind::Clause);
    assert_eq!(term.number.as_deref(), Some("3"));
    assert_eq!(term.metadata.clause_type.as_deref(), Some("Termination"));
    assert_eq!(
        term.metadata.contract_type.as_deref(),
        Some("Non-Disclosure Agreement")
    );
}

#[test]
fn harvests_definitions_as_standalone_objects() {
    let d = doc(&[
        ("1. DEFINITIONS", None),
        (
            "\"Effective Date\" means the date of signature of this Agreement by the party signing last.",
            None,
        ),
    ]);
    let clauses = draftos::extract::extract(&d, "nda.txt");
    let def = clauses
        .iter()
        .find(|c| c.kind == ClauseKind::Definition)
        .expect("definition extracted");
    assert_eq!(def.term.as_deref(), Some("Effective Date"));
    assert!(def.body.contains("date of signature"));
}

#[test]
fn detects_schedules_and_jurisdiction() {
    let d = doc(&[
        ("7. GOVERNING LAW", None),
        (
            "This Agreement is governed by the laws of the Republic of South Africa in all respects.",
            None,
        ),
        ("Schedule 1", None),
        ("Conditions precedent to be fulfilled by the Borrower before the Advance Date occurs.", None),
    ]);
    let clauses = draftos::extract::extract(&d, "loan.txt");
    assert!(clauses.iter().any(|c| c.kind == ClauseKind::Schedule));
    assert!(clauses
        .iter()
        .all(|c| c.metadata.jurisdiction.as_deref() == Some("South Africa")));
}

#[test]
fn kind_names_round_trip() {
    for k in [
        ClauseKind::Recital,
        ClauseKind::Definition,
        ClauseKind::Clause,
        ClauseKind::Schedule,
        ClauseKind::Execution,
        ClauseKind::Other,
    ] {
        assert_eq!(ClauseKind::parse(k.as_str()), k);
    }
    assert_eq!(ClauseKind::parse("no such kind"), ClauseKind::Other);
    assert_eq!(ClauseKind::Definition.as_str(), "definition");
}

#[test]
fn short_fragments_are_dropped_but_definitions_kept() {
    let d = doc(&[
        ("1. DEFINITIONS", None),
        ("\"Day\" means a day.", None),
        ("2. TERM", None),
        ("Short.", None),
    ]);
    let clauses = draftos::extract::extract(&d, "x.txt");
    assert!(clauses.iter().any(|c| c.kind == ClauseKind::Definition && c.term.as_deref() == Some("Day")));
    assert!(!clauses.iter().any(|c| c.heading.as_deref() == Some("TERM")));
}

#[test]
fn clause_numbers_in_any_decimal_digits_are_recognised() {
    let d = doc(&[
        ("\u{661}. DEFINITIONS", None),
        ("\u{662}. TERMINATION", None),
        ("Either party may terminate this Agreement on thirty days written notice to the other party.", None),
    ]);
    let clauses = draftos::extract::extract(&d, "nda.txt");
    let term = clauses.iter().find(|c| c.heading.as_deref() == Some("TERMINATION")).unwrap();
    assert_eq!(term.number.as_deref(), Some("\u{662}"));
}

#[test]
fn heading_only_parents_are_kept_with_their_sub_clauses() {
    let d = doc(&[
        ("1. APPOINTMENT", None),
        ("1.1 The Customer appoints the Provider to render the Services on the terms of this Agreement.", None),
    ]);
    let clauses = draftos::extract::extract(&d, "x.txt");
    let parent = clauses.iter().find(|c| c.heading.as_deref() == Some("APPOINTMENT")).expect("parent kept");
    assert_eq!(parent.depth, 0);
    assert!(parent.body.is_empty());
    assert!(clauses.iter().any(|c| c.number.as_deref() == Some("1.1") && c.depth == 1));
}

#[test]
fn objects_carry_position_depth_and_provenance() {
    let d = doc(&[
        ("NON-DISCLOSURE AGREEMENT", None),
        ("entered into between Acme (Pty) Ltd and Beta (Pty) Ltd, together the parties hereto.", None),
        ("1. DEFINITIONS", None),
        ("\"Effective Date\" means the date of signature of this Agreement by the party signing last.", None),
        ("2. CONFIDENTIALITY", None),
        ("2.1.3 The Receiving Party shall keep all Confidential Information strictly confidential.", None),
        ("Schedule 1", None),
        ("The Services to be rendered by the Provider under this Agreement, as agreed in writing.", None),
    ]);
    let split = draftos::split::split_into_clauses(&d);
    for (i, c) in split.iter().enumerate() {
        assert_eq!(c.seq, i);
        assert_eq!(c.depth as usize, c.number.as_deref().map_or(0, |n| n.matches('.').count()));
        assert_ne!(c.kind, ClauseKind::Definition);
    }
    let first_numbered = split.iter().position(|c| c.number.is_some()).unwrap();
    assert!(first_numbered > 0);
    assert!(split[..first_numbered].iter().all(|c| c.kind != ClauseKind::Clause));
    let first_schedule = split.iter().position(|c| c.kind == ClauseKind::Schedule).unwrap();
    assert!(split[first_schedule..].iter().all(|c| c.kind == ClauseKind::Schedule));

    let clauses = draftos::extract::extract(&d, "nda.txt");
    for c in &clauses {
        assert_eq!(c.metadata.source.as_deref(), Some("nda.txt"));
        assert_eq!(c.metadata.language.as_deref(), Some("English"));
        assert_eq!(c.metadata.contract_type.as_deref(), Some("Non-Disclosure Agreement"));
        if c.kind == ClauseKind::Definition {
            assert!(c.term.is_some());
            assert_eq!(c.metadata.clause_type.as_deref(), Some("Definitions"));
        }
    }
}
