use draftos::lir::{Block, Party, Run};
use draftos::matter::PrecedentClause;
use draftos::model::ClauseKind;
use draftos::prompt::{adapt_clause, ask, explain, strip_fences, validate_block};

#[test]
fn adapt_carries_guardrails_and_schema() {
    let parties = vec![Party {
        id: "seller".into(),
        name: "Acme (Pty) Ltd".into(),
        role: "Seller".into(),
        entity_type: None,
        reg_no: None,
        address: None,
    }];
    let req = adapt_clause("Termination", "The Seller may terminate…", "Use party names", &parties, &["Effective Date".into()]);
    assert!(req.json);
    assert!(req.messages[0].content.contains("never break"));
    let user = &req.messages[1].content;
    assert!(user.contains("Acme (Pty) Ltd"));
    assert!(user.contains("Effective Date"));
    assert!(user.contains("\"type\":\"paragraph\""));
}

#[test]
fn ask_numbers_context_and_forbids_outside_knowledge() {
    let hit = PrecedentClause {
        clause_id: "c1".into(),
        source_name: "banking".into(),
        file: "loan.docx".into(),
        kind: ClauseKind::Clause,
        number: Some("12".into()),
        heading: Some("Termination".into()),
        term: None,
        body: "Either party may terminate on 30 days notice.".into(),
        ooxml: Vec::new(),
    };
    let req = ask("How can I terminate?", &[hit]);
    assert!(!req.json);
    let system = &req.messages[0].content;
    assert!(system.contains("[1] Termination — source: banking / loan.docx"));
    assert!(system.contains("do not answer"));
}

#[test]
fn explain_is_free_text() {
    let req = explain("Breach", "If a party breaches …");
    assert!(!req.json);
    assert_eq!(req.max_tokens, 1024);
    assert!(req.messages[1].content.ends_with("Heading: Breach\nBody:\nIf a party breaches …"));
}

#[test]
fn fences_are_stripped() {
    assert_eq!(strip_fences("```json\n[1]\n```"), "[1]");
    assert_eq!(strip_fences("  [2]  "), "[2]");
    assert_eq!(strip_fences("```[3]"), "```[3]");
}

#[test]
fn blocks_without_text_or_names_are_rejected() {
    assert!(validate_block(&Block::para("Hello")).is_ok());
    assert_eq!(validate_block(&Block::para("   ")), Err("paragraph block with no text".to_string()));
    let v = Block::Variable { name: "".into(), label: "x".into(), value: None };
    assert_eq!(validate_block(&v), Err("variable block without a name".to_string()));
    let list = Block::List { ordered: false, items: vec![vec![Block::para("ok")], vec![Block::Paragraph { runs: vec![Run::normal(" ")] }]] };
    assert_eq!(validate_block(&list), Err("paragraph block with no text".to_string()));
}
