use draftos::drafting::{apply_adaptation, clause_position, definition_terms, donor_source};
use draftos::ids::now_utc;
use draftos::lir::{Block, Definition, LirClause, LirDocument, LirMeta, Provenance, Recital};
use draftos::preview::{clause_snippet, collect_variables, snippet};
use draftos::storage::SourceRecord;

fn meta() -> LirMeta {
    LirMeta {
        title: "Services Agreement".into(),
        contract_type: "Service Agreement".into(),
        jurisdiction: None,
        language: "English".into(),
        matter_id: None,
        created_at: now_utc(),
    }
}

fn clause(number: &str, body: Vec<Block>, source: Option<&str>, file: Option<&str>) -> LirClause {
    LirClause {
        id: format!("c{number}"),
        number: number.into(),
        heading: format!("Heading {number}"),
        body,
        children: Vec::new(),
        cross_refs: Vec::new(),
        defined_terms_used: Vec::new(),
        provenance: Provenance {
            source: source.map(str::to_string),
            file: file.map(str::to_string),
            original_clause_id: None,
            adapted_by_model: false,
        },
        source_ooxml: Vec::new(),
        heading_ooxml: None,
    }
}

fn var(name: &str, value: Option<&str>) -> Block {
    Block::Variable { name: name.into(), label: format!("{name} label"), value: value.map(str::to_string) }
}

#[test]
fn snippet_flattens_and_cuts_at_a_character() {
    assert_eq!(snippet("  a  b\n c ", 10), "a b c");
    assert_eq!(snippet("abcdef", 4), "abcd\u{2026}");
    // "é" is two bytes: a cut at 3 bytes keeps "aé".
    assert_eq!(snippet("aébc", 3), "a\u{e9}\u{2026}");
    assert_eq!(snippet("aébc", 2), "a\u{2026}");
}

#[test]
fn clause_snippet_trims_and_caps_at_320_characters() {
    let c = clause("1", vec![Block::para("  first"), Block::para("second  ")], None, None);
    assert_eq!(clause_snippet(&c), "first\nsecond");
    let long = "x".repeat(400);
    let c = clause("2", vec![Block::para(&long)], None, None);
    let s = clause_snippet(&c);
    assert_eq!(s.chars().count(), 321);
    assert!(s.ends_with('\u{2026}'));
}

#[test]
fn variables_are_collected_once_in_document_order() {
    let mut doc = LirDocument::new(meta());
    doc.clauses.push(clause(
        "1",
        vec![
            var("fee", Some("R100")),
            Block::List { ordered: false, items: vec![vec![var("term", None)], vec![var("fee", None)]] },
            Block::Table { rows: vec![vec![vec![var("date", Some("  "))]]] },
        ],
        None,
        None,
    ));
    doc.recitals.push(Recital {
        id: "r".into(),
        body: vec![var("party", Some("Alpha"))],
        provenance: Provenance::default(),
        source_ooxml: Vec::new(),
    });
    let vs: Vec<(String, bool)> = collect_variables(&doc).into_iter().map(|v| (v.name, v.filled)).collect();
    assert_eq!(
        vs,
        vec![
            ("fee".to_string(), true),
            ("term".to_string(), false),
            ("date".to_string(), false),
            ("party".to_string(), true),
        ]
    );
}

fn record(name: &str) -> SourceRecord {
    SourceRecord {
        id: name.into(),
        name: name.into(),
        folder: format!("/f/{name}"),
        bundle_dir: format!("/b/{name}"),
        attached: true,
        created_at: now_utc(),
    }
}

#[test]
fn donor_is_the_docx_that_gave_most_clauses() {
    let mut doc = LirDocument::new(meta());
    doc.clauses.push(clause("1", vec![], Some("banking"), Some("a.docx")));
    doc.clauses.push(clause("2", vec![], Some("banking"), Some("b.DOCX")));
    doc.clauses.push(clause("3", vec![], Some("banking"), Some("b.DOCX")));
    doc.clauses.push(clause("4", vec![], Some("banking"), Some("c.pdf")));
    doc.clauses.push(clause("5", vec![], Some("banking"), Some("c.pdf")));
    doc.clauses.push(clause("6", vec![], Some("banking"), Some("c.pdf")));
    let records = vec![record("tax"), record("Banking")];
    assert_eq!(donor_source(&doc, &records), Some((1, "b.DOCX".to_string())));
    assert_eq!(donor_source(&doc, &[record("tax")]), None);
    assert_eq!(donor_source(&LirDocument::new(meta()), &records), None);
}

#[test]
fn adaptation_replaces_the_body_and_recomputes_links() {
    let mut doc = LirDocument::new(meta());
    doc.definitions.push(Definition {
        term: "Business Day".into(),
        body: vec![Block::para("\"Business Day\" means a weekday.")],
        provenance: Provenance::default(),
        ooxml: Vec::new(),
    });
    doc.clauses.push(clause("1", vec![Block::para("old")], Some("s"), Some("f.docx")));
    doc.clauses.push(clause("2", vec![Block::para("old")], None, None));
    assert_eq!(clause_position(&doc, "2"), Some(1));
    assert_eq!(clause_position(&doc, "7"), None);
    let terms = definition_terms(&doc);
    assert_eq!(terms, vec!["Business Day".to_string()]);
    let blocks = vec![Block::para("Pay within 5 Business Days."), Block::para("See clause 1.2 and clause 3.")];
    apply_adaptation(&mut doc.clauses[1], blocks, &terms);
    let c = &doc.clauses[1];
    assert!(c.provenance.adapted_by_model);
    assert_eq!(c.defined_terms_used, vec!["Business Day".to_string()]);
    assert_eq!(c.cross_refs, vec!["1.2".to_string(), "3".to_string()]);
    assert_eq!(c.body.len(), 2);
    assert_eq!(c.number, "2");
}

#[test]
fn written_placeholders_and_sub_clauses_are_fields_too() {
    let mut doc = LirDocument::new(meta());
    let mut top = clause("1", vec![Block::para("The fee is {{ fee | Monthly fee }} per {{period}}.")], None, None);
    top.children.push(clause("1.1", vec![Block::para("Payable by {{due_date}} or {{fee}}."), var("bank", None)], None, None));
    doc.clauses.push(top);
    let vs: Vec<(String, String, bool)> =
        collect_variables(&doc).into_iter().map(|v| (v.name, v.label, v.filled)).collect();
    assert_eq!(
        vs,
        vec![
            ("fee".to_string(), "fee".to_string(), false),
            ("period".to_string(), "period".to_string(), false),
            ("due_date".to_string(), "due_date".to_string(), false),
            ("bank".to_string(), "bank label".to_string(), false),
        ]
    );
}
