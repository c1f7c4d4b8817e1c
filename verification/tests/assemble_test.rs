use draftos::assemble::{assemble, terms_used, text_to_blocks, AssembledDraft, Precedent};
use draftos::extract::extract;
use draftos::matter::{MatterSpec, PartyInput};
use draftos::model::{Paragraph, ParsedDocument};
use draftos::patterns::{cross_refs, substitute};
use draftos::validate::validate;

/// A precedent document from `(text, heading_level)` pairs.
fn parsed(file_name: &str, lines: &[(&str, Option<u8>)]) -> ParsedDocument {
    ParsedDocument {
        file_name: file_name.to_string(),
        paragraphs: lines
            .iter()
            .map(|(text, level)| Paragraph { text: (*text).to_string(), heading_level: *level, ooxml: None })
            .collect(),
    }
}

/// The precedents of one source, extracted as ingestion extracts them.
fn source_with(name: &str, docs: &[ParsedDocument]) -> Vec<Precedent> {
    docs.iter()
        .map(|doc| Precedent {
            source_name: name.to_string(),
            file: doc.file_name.clone(),
            title: doc.paragraphs.first().map(|p| p.text.clone()),
            clauses: extract(doc, &doc.file_name),
        })
        .collect()
}

fn spec(contract_type: &str) -> MatterSpec {
    MatterSpec {
        matter_id: "m1".into(),
        title: format!("{contract_type} - Gamma and Delta"),
        contract_type: contract_type.to_string(),
        jurisdiction: Some("South Africa".to_string()),
        language: "English".to_string(),
        parties: vec![
            PartyInput {
                id: "p1".into(),
                name: "Gamma (Pty) Ltd".into(),
                role: "Customer".into(),
                entity_type: None,
                reg_no: None,
                address: None,
            },
            PartyInput {
                id: "p2".into(),
                name: "Delta Services (Pty) Ltd".into(),
                role: "Provider".into(),
                entity_type: None,
                reg_no: None,
                address: None,
            },
        ],
        variables: Vec::new(),
        source_scope: Vec::new(),
        skeleton_precedent: None,
        approved_only: false,
        include_clause_types: Vec::new(),
        exclude_clause_types: Vec::new(),
    }
}

/// An ordinary commercial precedent: numbered clauses, sub-clauses, a
/// definitions clause, internal cross-references and two schedules.
fn service_agreement() -> ParsedDocument {
    parsed(
        "Service Agreement - Alpha and Beta.docx",
        &[
        ("SERVICE LEVEL AGREEMENT", Some(1)),
        ("entered into between Alpha (Pty) Ltd and Beta Holdings Ltd", None),
        ("1. DEFINITIONS AND INTERPRETATION", Some(1)),
        ("1.1 In this Agreement, unless inconsistent with the context:", None),
        ("\"Business Day\" means any day other than a Saturday, Sunday or public holiday in the Republic of South Africa.", None),
        ("\"Services\" means the services described in Schedule 1.", None),
        ("\"Service Credit\" means the rebate calculated in accordance with clause 6.", None),
        ("2. APPOINTMENT", Some(1)),
        ("2.1 The Customer appoints the Provider to render the Services with effect from the Commencement Date, and the Provider accepts the appointment on the terms set out in this Agreement.", None),
        ("2.2 The appointment is not exclusive and the Customer may appoint third parties to render comparable services.", None),
        ("3. DURATION", Some(1)),
        ("3.1 This Agreement commences on the Commencement Date and endures for an initial period of 24 months, whereafter it continues indefinitely until terminated in accordance with clause 11.", None),
        ("4. SERVICE LEVELS", Some(1)),
        ("4.1 The Provider shall render the Services in accordance with the service levels set out in Schedule 2.", None),
        ("4.2 The Provider shall measure and report on its performance against the service levels monthly, within five Business Days of month end.", None),
        ("5. FEES AND PAYMENT", Some(1)),
        ("5.1 The Customer shall pay the Provider the fees set out in Schedule 1, monthly in arrear.", None),
        ("5.2 All amounts are exclusive of value-added tax, which shall be added at the prevailing rate.", None),
        ("5.3 Invoices are payable within 30 days of date of invoice, without deduction or set-off.", None),
        ("6. SERVICE CREDITS", Some(1)),
        ("6.1 If the Provider fails to meet a service level, the Customer is entitled to a Service Credit calculated in accordance with Schedule 2.", None),
        ("6.2 Service Credits are the Customer's sole financial remedy for a failure to meet a service level.", None),
        ("7. WARRANTIES", Some(1)),
        ("7.1 The Provider warrants that it has the skill, capacity and resources to render the Services and that it will do so with reasonable care and skill.", None),
        ("8. LIMITATION OF LIABILITY", Some(1)),
        ("8.1 Neither party is liable to the other for any indirect or consequential loss, including loss of profit, howsoever arising.", None),
        ("8.2 Each party's aggregate liability under this Agreement is limited to the fees paid in the 12 months preceding the claim.", None),
        ("9. CONFIDENTIALITY", Some(1)),
        ("9.1 Each party shall keep confidential all Confidential Information of the other party and shall not disclose it to any third party without prior written consent.", None),
        ("9.2 This clause 9 survives termination of this Agreement for a period of five years.", None),
        ("10. INTELLECTUAL PROPERTY", Some(1)),
        ("10.1 All intellectual property developed by the Provider in rendering the Services vests in the Customer on creation.", None),
        ("11. BREACH AND TERMINATION", Some(1)),
        ("11.1 Should either party commit a material breach and fail to remedy it within 14 days of written notice, the aggrieved party may cancel this Agreement.", None),
        ("11.2 Either party may terminate this Agreement on 90 days written notice to the other.", None),
        ("12. DISPUTE RESOLUTION", Some(1)),
        ("12.1 Any dispute arising out of this Agreement shall be referred to arbitration in Johannesburg under the rules of AFSA.", None),
        ("13. GOVERNING LAW", Some(1)),
        ("13.1 This Agreement is governed by and construed in accordance with the laws of the Republic of South Africa.", None),
        ("14. NOTICES", Some(1)),
        ("14.1 The parties choose the addresses set out in Schedule 1 as their domicilium citandi et executandi.", None),
        ("15. GENERAL", Some(1)),
        ("15.1 This Agreement constitutes the whole agreement between the parties and no variation is of force unless reduced to writing and signed by both parties.", None),
        ("SCHEDULE 1", Some(1)),
        ("The Services, the fees payable and the parties' addresses are set out in this Schedule 1 as agreed between the parties in writing.", None),
        ("SCHEDULE 2", Some(1)),
        ("The service levels and the Service Credit calculation applicable to the Services are set out in this Schedule 2.", None),
        ],
    )
}

fn draft_of(s: &MatterSpec, precedents: &Vec<Precedent>) -> AssembledDraft {
    assemble(s, precedents).unwrap_or_else(|e| panic!("{}", e.message()))
}

fn headings(d: &AssembledDraft) -> Vec<&str> {
    d.document.clauses.iter().map(|c| c.heading.as_str()).collect()
}

#[test]
fn draft_keeps_every_clause_of_the_precedent() {
    let ps = source_with("precedents", &[service_agreement()]);
    let draft = draft_of(&spec("Service Agreement"), &ps);
    let doc = &draft.document;
    assert_eq!(doc.clauses.len(), 15, "expected all 15 top-level clauses, got {:?}", headings(&draft));
    for heading in ["Appointment", "Service Levels", "Service Credits", "Duration"] {
        assert!(
            doc.clauses.iter().any(|c| c.heading == heading),
            "'{heading}' was dropped; headings: {:?}",
            headings(&draft)
        );
    }
    assert!(draft.report.missing.is_empty(), "{:?}", draft.report.missing);
}

#[test]
fn clauses_sharing_a_label_both_survive() {
    let ps = source_with("precedents", &[service_agreement()]);
    let draft = draft_of(&spec("Service Agreement"), &ps);
    let hs = headings(&draft);
    assert!(hs.contains(&"Duration"), "{hs:?}");
    assert!(hs.contains(&"Breach and Termination"), "{hs:?}");
}

#[test]
fn sub_clause_hierarchy_survives() {
    let ps = source_with("precedents", &[service_agreement()]);
    let draft = draft_of(&spec("Service Agreement"), &ps);
    let fees = draft.document.clauses.iter().find(|c| c.heading == "Fees and Payment").expect("fees clause");
    assert_eq!(fees.children.len(), 3, "5.1, 5.2 and 5.3 should be children");
    assert_eq!(fees.children[0].number, format!("{}.1", fees.number));
    let first = fees.children[0].body[0].plain_text();
    assert!(first.contains("monthly in arrear"), "{first}");
    assert!(!first.contains("value-added tax"), "sub-clauses were merged: {first}");
}

#[test]
fn schedules_are_carried_through() {
    let ps = source_with("precedents", &[service_agreement()]);
    let draft = draft_of(&spec("Service Agreement"), &ps);
    assert_eq!(
        draft.document.schedules.len(),
        2,
        "titles: {:?}",
        draft.document.schedules.iter().map(|s| &s.title).collect::<Vec<_>>()
    );
    assert!(draft.document.schedules[0].title.to_lowercase().starts_with("schedule"));
}

#[test]
fn definitions_survive_intact() {
    let ps = source_with("precedents", &[service_agreement()]);
    let draft = draft_of(&spec("Service Agreement"), &ps);
    let terms: Vec<&str> = draft.document.definitions.iter().map(|d| d.term.as_str()).collect();
    for want in ["Business Day", "Services", "Service Credit"] {
        assert!(terms.contains(&want), "missing {want}; have {terms:?}");
    }
}

#[test]
fn cross_references_follow_the_new_numbering() {
    let ps = source_with("precedents", &[service_agreement()]);
    let draft = draft_of(&spec("Service Agreement"), &ps);
    let doc = &draft.document;
    let conf = doc.clauses.iter().find(|c| c.heading == "Confidentiality").expect("confidentiality clause");
    let text = conf
        .children
        .iter()
        .flat_map(|c| c.body.iter().map(|b| b.plain_text()))
        .collect::<Vec<_>>()
        .join(" ");
    assert!(text.contains(&format!("clause {}", conf.number)), "self-reference was not remapped: {text}");
    let report = validate(doc);
    assert!(
        !report.has_errors(),
        "validation errors: {:?}",
        report.errors().iter().map(|f| f.message.clone()).collect::<Vec<_>>()
    );
}

#[test]
fn unknown_instrument_drafts_from_its_own_precedent() {
    let charter = parsed(
        "Time Charterparty - Vessel Meridian.docx",
        &[
            ("TIME CHARTERPARTY", Some(1)),
            ("entered into between Owners and Charterers", None),
            ("1. DESCRIPTION OF VESSEL", Some(1)),
            ("1.1 The Owners let and the Charterers hire the vessel described in the Schedule for the period stated.", None),
            ("2. PERIOD OF HIRE", Some(1)),
            ("2.1 The vessel shall be delivered to the Charterers at the port stated and redelivered on expiry of the period of hire.", None),
            ("3. LAYTIME AND DEMURRAGE", Some(1)),
            ("3.1 Laytime shall commence six hours after tender of notice of readiness, and demurrage shall accrue at the daily rate stated.", None),
            ("4. BUNKERS", Some(1)),
            ("4.1 The Charterers shall accept and pay for the bunkers on board at delivery at the price stated.", None),
            ("5. OFF-HIRE", Some(1)),
            ("5.1 In the event of loss of time from deficiency of crew or breakdown of machinery, hire shall cease until the vessel is again in an efficient state.", None),
            ("6. LIEN", Some(1)),
            ("6.1 The Owners shall have a lien upon all cargoes and sub-freights for any amounts due under this charter.", None),
            ("7. ARBITRATION", Some(1)),
            ("7.1 Any dispute arising out of this charter shall be referred to arbitration in London.", None),
        ],
    );
    let ps = source_with("shipping", &[charter]);
    let draft = draft_of(&spec("Time Charterparty"), &ps);
    let hs = headings(&draft);
    assert_eq!(hs.len(), 7, "{hs:?}");
    for want in ["Description of Vessel", "Laytime and Demurrage", "Off-Hire", "Lien"] {
        assert!(hs.contains(&want), "missing {want}; have {hs:?}");
    }
    assert!(draft.report.missing.is_empty(), "{:?}", draft.report.missing);
    assert!(!hs.contains(&"Definitions"), "invented a clause: {hs:?}");
}

#[test]
fn precedent_order_is_preserved() {
    let ps = source_with("precedents", &[service_agreement()]);
    let draft = draft_of(&spec("Service Agreement"), &ps);
    let hs = headings(&draft);
    let appointment = hs.iter().position(|h| *h == "Appointment").unwrap();
    let fees = hs.iter().position(|h| *h == "Fees and Payment").unwrap();
    let governing = hs.iter().position(|h| *h == "Governing Law").unwrap();
    assert!(appointment < fees && fees < governing, "{hs:?}");
}

#[test]
fn checklist_gap_is_filled_from_another_precedent_and_reported() {
    let thin_nda = parsed(
        "Short NDA.docx",
        &[
            ("NON-DISCLOSURE AGREEMENT", Some(1)),
            ("entered into between the parties", None),
            ("1. CONFIDENTIALITY", Some(1)),
            ("1.1 Each party shall keep confidential all Confidential Information disclosed to it by the other party and shall not disclose it to any third party.", None),
            ("2. BREACH", Some(1)),
            ("2.1 Should either party commit a material breach, the aggrieved party may claim damages or specific performance.", None),
        ],
    );
    let ps = source_with("precedents", &[thin_nda, service_agreement()]);
    let draft = draft_of(&spec("Non-Disclosure Agreement"), &ps);
    let skeleton = draft.report.skeleton.as_ref().expect("a skeleton");
    assert_eq!(skeleton.file, "Short NDA.docx");
    let filled: Vec<&str> = draft.report.gap_filled.iter().map(|(ct, _, _)| ct.as_str()).collect();
    assert!(filled.contains(&"Governing Law"), "{filled:?}");
    assert!(draft.document.clauses.iter().any(|c| c.heading == "Governing Law"));
    for heading in ["Confidentiality", "Breach"] {
        assert!(draft.document.clauses.iter().any(|c| c.heading == heading));
    }
}

#[test]
fn excluded_clause_types_are_removed_and_reported() {
    let ps = source_with("precedents", &[service_agreement()]);
    let mut s = spec("Service Agreement");
    s.exclude_clause_types = vec!["Intellectual Property".to_string()];
    let draft = draft_of(&s, &ps);
    assert!(!draft.document.clauses.iter().any(|c| c.heading == "Intellectual Property"));
    assert!(draft.report.excluded.contains(&"Intellectual Property".to_string()));
}

#[test]
fn empty_corpus_is_an_error() {
    let ps = source_with("empty", &[]);
    match assemble(&spec("Service Agreement"), &ps) {
        Ok(d) => panic!("drafted {} clauses from nothing", d.document.clauses.len()),
        Err(e) => assert!(e.message().contains("no precedent"), "{}", e.message()),
    }
}

#[test]
fn spec_can_name_the_skeleton_precedent() {
    let ps = source_with("precedents", &[service_agreement()]);
    let mut s = spec("Non-Disclosure Agreement");
    s.skeleton_precedent = Some("Alpha and Beta".to_string());
    let draft = draft_of(&s, &ps);
    let skeleton = draft.report.skeleton.as_ref().unwrap();
    assert_eq!(skeleton.file, "Service Agreement - Alpha and Beta.docx");
    assert!(!skeleton.exact_type_match);
    assert!(!draft.report.notes.is_empty());
}

#[test]
fn variables_are_substituted_in_sub_clauses() {
    let doc = parsed(
        "Template.docx",
        &[
            ("SERVICE AGREEMENT", Some(1)),
            ("between the parties", None),
            ("1. FEES", Some(1)),
            ("1.1 The Customer shall pay a monthly fee of {{monthly_fee}} to the Provider, payable in arrear on the last Business Day of each month.", None),
        ],
    );
    let ps = source_with("precedents", &[doc]);
    let mut s = spec("Service Agreement");
    s.variables = vec![("monthly_fee".to_string(), "R150 000".to_string())];
    let draft = draft_of(&s, &ps);
    let text = draft
        .document
        .walk_clauses()
        .iter()
        .flat_map(|c| c.body.iter().map(|b| b.plain_text()))
        .collect::<Vec<_>>()
        .join(" ");
    assert!(text.contains("R150 000"), "{text}");
    assert!(!text.contains("{{monthly_fee}}"), "{text}");
}

#[test]
fn a_draft_is_framed_by_the_matter() {
    let ps = source_with("precedents", &[service_agreement()]);
    let draft = draft_of(&spec("Service Agreement"), &ps);
    let doc = &draft.document;
    let numbers: Vec<&str> = doc.clauses.iter().map(|c| c.number.as_str()).collect();
    let expected: Vec<String> = (1..=15).map(|n| n.to_string()).collect();
    assert_eq!(numbers, expected.iter().map(String::as_str).collect::<Vec<_>>());
    assert_eq!(doc.meta.title, "Service Agreement - Gamma and Delta");
    assert_eq!(doc.meta.matter_id.as_deref(), Some("m1"));
    assert_eq!(doc.execution.blocks[1].signatory_line, "for and on behalf of Delta Services (Pty) Ltd");
    let recital = doc.recitals[0].body[0].plain_text();
    assert_eq!(recital, "This Service Agreement is entered into between Gamma (Pty) Ltd (the \"Customer\") and Delta Services (Pty) Ltd (the \"Provider\"). The parties wish to record the terms and conditions set out below.");
    let first = &doc.clauses[0];
    assert_eq!(first.provenance.source.as_deref(), Some("precedents"));
    assert_eq!(first.provenance.file.as_deref(), Some("Service Agreement - Alpha and Beta.docx"));
    let skeleton = draft.report.skeleton.as_ref().unwrap();
    assert!(skeleton.exact_type_match);
    assert!(draft.report.notes.is_empty());
    assert!(draft.report.gap_filled.is_empty());
    assert_eq!(draft.report.definitions, vec!["Business Day", "Services", "Service Credit"]);
    let appointment = &doc.clauses[1];
    assert_eq!(appointment.children[1].number, "2.2");
    assert_eq!(doc.schedules[1].title, "SCHEDULE 2");
}

#[test]
fn a_blank_title_falls_back_to_the_contract_type() {
    let ps = source_with("precedents", &[service_agreement()]);
    let mut s = spec("Loan Agreement");
    s.title = "   ".into();
    let draft = draft_of(&s, &ps);
    assert_eq!(draft.document.meta.title, "Loan Agreement");
}

#[test]
fn a_matter_can_ask_for_approved_precedent_only() {
    let mut ps = source_with("precedents", &[service_agreement()]);
    let mut s = spec("Service Agreement");
    s.approved_only = true;
    assert!(assemble(&s, &ps).is_err());
    for c in ps[0].clauses.iter_mut() {
        c.metadata.approved = Some(true);
    }
    assert_eq!(draft_of(&s, &ps).document.clauses.len(), 15);
}

#[test]
fn an_included_clause_type_is_sought_and_reported_missing() {
    let ps = source_with("precedents", &[service_agreement()]);
    let mut s = spec("Service Agreement");
    s.include_clause_types = vec!["Force Majeure".to_string()];
    let draft = draft_of(&s, &ps);
    assert_eq!(draft.report.missing, vec!["Force Majeure".to_string()]);
    assert_eq!(draft.document.clauses.len(), 15);
}

#[test]
fn substitution_is_literal_and_keeps_unknown_placeholders() {
    let vars = vec![("monthly_fee".to_string(), "R150 000".to_string())];
    assert_eq!(substitute("pay {{monthly_fee}} and {{ other | Other }}", &vars), "pay R150 000 and {{ other | Other }}");
    assert_eq!(substitute("pay {{ monthly_fee | Monthly fee }}.", &vars), "pay R150 000.");
    assert_eq!(substitute("no {{ }} here {{a", &vars), "no {{ }} here {{a");
}

#[test]
fn cross_references_are_sorted_and_distinct() {
    assert_eq!(cross_refs("see clause 12.3, Clause 2 and CLAUSE 12.3; clause x"), vec!["12.3".to_string(), "2".to_string()]);
    assert!(cross_refs("no references").is_empty());
}

#[test]
fn bodies_lose_their_old_numbers() {
    let blocks = text_to_blocks("1.1 First line\n\n  2) Second\n12345 stays\n");
    let texts: Vec<String> = blocks.iter().map(|b| b.plain_text()).collect();
    assert_eq!(texts, vec!["First line".to_string(), "Second".to_string(), "12345 stays".to_string()]);
}

#[test]
fn terms_used_are_those_mentioned() {
    let terms = vec!["Effective Date".to_string(), "AB".to_string(), "Services".to_string()];
    assert_eq!(terms_used("From the Effective Date AB applies", &terms), vec!["Effective Date".to_string()]);
}

#[test]
fn precedent_formatting_is_carried_into_the_draft() {
    let para = |text: &str, level: Option<u8>, xml: Option<&str>| Paragraph {
        text: text.to_string(),
        heading_level: level,
        ooxml: xml.map(str::to_string),
    };
    let doc = ParsedDocument {
        file_name: "Fee Letter.docx".to_string(),
        paragraphs: vec![
            para("FEE LETTER", Some(1), None),
            para("3. FEES", Some(1), Some("<w:p><w:t>3. FEES</w:t></w:p>")),
            para(
                "3.1 Pay {{fee}} monthly in arrear as this clause 3 provides, without set-off.",
                None,
                Some("<w:p><w:t>3.1 Pay {{fee}} monthly in arrear as this clause 3 provides, without set-off.</w:t></w:p>"),
            ),
        ],
    };
    let ps = source_with("precedents", &[doc]);
    let mut s = spec("Fee Letter");
    s.variables = vec![("fee".to_string(), "R10".to_string())];
    let draft = draft_of(&s, &ps);
    let fees = &draft.document.clauses[0];
    assert_eq!(fees.number, "1");
    assert_eq!(fees.heading_ooxml.as_deref(), Some("<w:p><w:t>3. FEES</w:t></w:p>"));
    assert_eq!(
        fees.children[0].source_ooxml,
        vec!["<w:p><w:t>3.1 Pay R10 monthly in arrear as this clause 1 provides, without set-off.</w:t></w:p>".to_string()]
    );
    assert_eq!(fees.children[0].body[0].plain_text(), "Pay R10 monthly in arrear as this clause 1 provides, without set-off.");
}

#[test]
fn sub_clause_references_follow_the_new_numbering() {
    let doc = parsed(
        "Supply Agreement.docx",
        &[
            ("SUPPLY AGREEMENT", Some(1)),
            ("between the parties", None),
            ("1. FEES", Some(1)),
            ("1.1 The Customer shall pay the fees set out in the price list for each delivery.", None),
            ("2. TERM", Some(1)),
            ("2.1 This Agreement endures for a period of twelve months from signature.", None),
            ("3. PAYMENT", Some(1)),
            ("3.1 Payment is made as set out in clause 3.2 and clause 1, within thirty days.", None),
            ("3.2 Payment is made by electronic transfer into the account the Supplier names.", None),
        ],
    );
    let ps = source_with("precedents", &[doc]);
    let mut s = spec("Supply Agreement");
    s.exclude_clause_types = vec!["Term".to_string()];
    let draft = draft_of(&s, &ps);
    let hs = headings(&draft);
    assert_eq!(hs, vec!["Fees", "Payment"]);
    let payment = &draft.document.clauses[1];
    assert_eq!(payment.number, "2");
    assert_eq!(payment.children[1].number, "2.2");
    assert_eq!(
        payment.children[0].body[0].plain_text(),
        "Payment is made as set out in clause 2.2 and clause 1, within thirty days."
    );
    assert_eq!(payment.children[0].cross_refs, vec!["1".to_string(), "2.2".to_string()]);
    assert_eq!(draft.report.excluded, vec!["Term".to_string()]);
}
