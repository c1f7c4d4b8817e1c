use draftos::docx::{build_document_xml, esc_text, prepare_source_paragraph, render_docx, render_docx_with_style, StyleDonor};
use draftos::ids::{new_id, now_utc};
use draftos::lir::{Block, Definition, LirClause, LirDocument, LirMeta, Party, Provenance, Run, SignatureBlock};
use draftos::markdown::render_markdown;
use std::io::Read;

fn sample_doc() -> LirDocument {
    let mut doc = LirDocument::new(LirMeta {
        title: "Sample NDA".into(),
        contract_type: "Non-Disclosure Agreement".into(),
        jurisdiction: Some("South Africa".into()),
        language: "English".into(),
        matter_id: None,
        created_at: now_utc(),
    });
    doc.parties.push(Party {
        id: "d".into(),
        name: "Alpha (Pty) Ltd".into(),
        role: "Disclosing Party".into(),
        entity_type: None,
        reg_no: Some("2020/1/07".into()),
        address: None,
    });
    doc.definitions.push(Definition {
        term: "Confidential Information".into(),
        body: vec![Block::para("\"Confidential Information\" means all information disclosed.")],
        provenance: Provenance::default(),
        ooxml: Vec::new(),
    });
    doc.clauses.push(LirClause {
        id: new_id(),
        number: "1".into(),
        heading: "Confidentiality".into(),
        source_ooxml: Vec::new(),
        heading_ooxml: None,
        body: vec![
            Block::Paragraph {
                runs: vec![
                    Run::normal("The "),
                    Run::bold("Receiving Party"),
                    Run::normal(" shall keep Confidential Information secret & safe."),
                ],
            },
            Block::List {
                ordered: false,
                items: vec![
                    vec![Block::para("no disclosure to third parties")],
                    vec![Block::para("use only for the permitted purpose")],
                ],
            },
        ],
        children: Vec::new(),
        cross_refs: Vec::new(),
        defined_terms_used: vec!["Confidential Information".into()],
        provenance: Provenance::default(),
    });
    doc.execution.blocks.push(SignatureBlock {
        party_id: "d".into(),
        party_name: "Alpha (Pty) Ltd".into(),
        signatory_line: "for and on behalf of Alpha (Pty) Ltd".into(),
    });
    doc
}

#[test]
fn markdown_renders_structure() {
    let md = render_markdown(&sample_doc());
    assert!(md.contains("# Sample NDA"));
    assert!(md.contains("## 1. Confidentiality"));
    assert!(md.contains("**Receiving Party**"));
    assert!(md.contains("- no disclosure to third parties"));
    assert!(md.contains("_____________________________"));
}

#[test]
fn docx_is_a_valid_ooxml_package_with_escaped_text() {
    let bytes = render_docx(&sample_doc()).unwrap();
    assert_eq!(&bytes[..2], b"PK", "docx must be a zip");

    let mut archive = zip::ZipArchive::new(std::io::Cursor::new(bytes)).unwrap();
    let names: Vec<String> = (0..archive.len())
        .map(|i| archive.by_index(i).unwrap().name().to_string())
        .collect();
    assert!(names.contains(&"[Content_Types].xml".to_string()));
    assert!(names.contains(&"word/document.xml".to_string()));

    let mut xml = String::new();
    archive
        .by_name("word/document.xml")
        .unwrap()
        .read_to_string(&mut xml)
        .unwrap();
    assert!(xml.contains("Sample NDA"));
    assert!(xml.contains("secret &amp; safe"));
    assert!(!xml.contains("secret & safe"));
    assert!(xml.contains(r#"<w:pStyle w:val="Heading1"/>"#));
}

#[test]
fn prepare_strips_numbering_keeps_style_and_dissolves_hyperlinks() {
    let p = r#"<w:p><w:pPr><w:pStyle w:val="Clause2Sub"/><w:numPr><w:ilvl w:val="1"/><w:numId w:val="51"/></w:numPr></w:pPr><w:hyperlink w:history="1" r:id="Rabc"><w:r><w:t>see clause 8</w:t></w:r></w:hyperlink></w:p>"#;
    let out = prepare_source_paragraph(p);
    assert!(!out.contains("<w:numPr"), "numbering removed: {out}");
    assert!(out.contains(r#"w:val="Clause2Sub""#), "style kept");
    assert!(!out.contains("<w:hyperlink") && !out.contains("r:id"), "hyperlink dissolved: {out}");
    assert!(out.contains("see clause 8"), "link text kept");
}

#[test]
fn markdown_of_headingless_sub_clause_runs_number_into_text() {
    let mut doc = sample_doc();
    doc.clauses[0].children.push(LirClause {
        id: new_id(),
        number: "1.1".into(),
        heading: "".into(),
        source_ooxml: Vec::new(),
        heading_ooxml: None,
        body: vec![Block::para("Each party shall comply.")],
        children: Vec::new(),
        cross_refs: Vec::new(),
        defined_terms_used: Vec::new(),
        provenance: Provenance::default(),
    });
    let md = render_markdown(&doc);
    assert!(md.contains("1.1 Each party shall comply.\n\n"), "{md}");
    assert!(md.ends_with("\n_Governing law: South Africa._\n"), "{md}");
    assert!(md.contains("- **Alpha (Pty) Ltd** (the \"Disclosing Party\"), registration number 2020/1/07\n"), "{md}");
}

#[test]
fn escaping_covers_markup_characters() {
    assert_eq!(esc_text(r#"a & b < c > d "e""#), "a &amp; b &lt; c &gt; d &quot;e&quot;");
    assert_eq!(esc_text("plain"), "plain");
}

#[test]
fn plain_document_xml_uses_builtin_styles_and_bullets() {
    let xml = build_document_xml(&sample_doc(), None);
    assert!(xml.starts_with("<?xml version=\"1.0\" encoding=\"UTF-8\" standalone=\"yes\"?>\n<w:document xmlns:w="));
    assert!(xml.contains(r#"<w:pStyle w:val="Title"/>"#));
    assert!(xml.contains("\u{2022}  no disclosure to third parties"));
    assert!(xml.contains(r#"<w:pStyle w:val="ListParagraph"/>"#));
    assert!(xml.contains("Governing law: South Africa."));
    assert!(xml.ends_with("</w:body></w:document>"));
}

#[test]
fn styled_rendering_uses_the_donors_parts_and_precedent_paragraphs() {
    let mut doc = sample_doc();
    doc.clauses[0].source_ooxml = vec![r#"<w:p><w:pPr><w:numPr><w:numId w:val="3"/></w:numPr></w:pPr><w:r><w:t>Lifted.</w:t></w:r></w:p>"#.to_string()];
    let mut donor = StyleDonor::default();
    donor.styles_xml = Some("<w:styles/>".to_string());
    donor.sect_pr = Some("<w:sectPr><w:pgSz w:w=\"11906\"/></w:sectPr>".to_string());
    let xml = build_document_xml(&doc, Some(&donor));
    assert!(xml.contains("<w:r><w:t>Lifted.</w:t></w:r>"));
    assert!(!xml.contains("<w:numPr>"));
    assert!(!xml.contains("ListParagraph"));
    assert!(xml.contains("<w:pgSz w:w=\"11906\"/>"));
    let bytes = render_docx_with_style(&doc, Some(&donor)).unwrap();
    let mut archive = zip::ZipArchive::new(std::io::Cursor::new(bytes)).unwrap();
    let mut styles = String::new();
    archive.by_name("word/styles.xml").unwrap().read_to_string(&mut styles).unwrap();
    assert_eq!(styles, "<w:styles/>");
    let mut rels = String::new();
    archive.by_name("word/_rels/document.xml.rels").unwrap().read_to_string(&mut rels).unwrap();
    assert!(rels.contains(r#"Id="rId1" Type="http://schemas.openxmlformats.org/officeDocument/2006/relationships/styles" Target="styles.xml""#));
}

#[test]
fn an_unusable_donor_renders_plainly() {
    let donor = StyleDonor::default();
    assert!(!donor.is_usable());
    let a = render_docx_with_style(&sample_doc(), Some(&donor)).unwrap();
    let b = render_docx(&sample_doc()).unwrap();
    assert_eq!(a, b);
}

#[test]
fn docx_renders_every_sub_clause() {
    let mut doc = sample_doc();
    let child = |number: &str, heading: &str, text: &str| LirClause {
        id: new_id(),
        number: number.into(),
        heading: heading.into(),
        source_ooxml: Vec::new(),
        heading_ooxml: None,
        body: vec![Block::para(text)],
        children: Vec::new(),
        cross_refs: Vec::new(),
        defined_terms_used: Vec::new(),
        provenance: Provenance::default(),
    };
    let mut sub = child("1.1", "", "Fees are payable monthly in arrear.");
    sub.children.push(child("1.1.1", "Interest", "Late amounts bear interest."));
    doc.clauses[0].children.push(sub);
    let xml = build_document_xml(&doc, None);
    assert!(xml.contains("Fees are payable monthly in arrear."));
    assert!(xml.contains(">1.1</w:t>"));
    assert!(xml.contains("1.1.1. Interest"));
    assert!(xml.contains("Late amounts bear interest."));
    let bytes = render_docx(&doc).unwrap();
    assert_eq!(&bytes[..2], b"PK");
}

fn nested(number: &str, heading: &str, text: &str, children: Vec<LirClause>) -> LirClause {
    LirClause {
        id: new_id(),
        number: number.into(),
        heading: heading.into(),
        source_ooxml: Vec::new(),
        heading_ooxml: None,
        body: vec![Block::para(text)],
        children,
        cross_refs: Vec::new(),
        defined_terms_used: Vec::new(),
        provenance: Provenance::default(),
    }
}

#[test]
fn every_sub_clause_heading_and_run_reaches_the_output() {
    let mut doc = sample_doc();
    let grandchild = nested("1.1.1", "Carve-outs", "Public information is excluded.", Vec::new());
    let child = nested("1.1", "Exceptions", "These exceptions apply.", vec![grandchild]);
    doc.clauses[0].children.push(child);
    let md = render_markdown(&doc);
    assert!(md.contains("## 1. Confidentiality\n\n"), "{md}");
    assert!(md.contains("### 1.1. Exceptions\n\n"), "{md}");
    assert!(md.contains("#### 1.1.1. Carve-outs\n\n"), "{md}");
    let xml = build_document_xml(&doc, None);
    assert!(xml.contains("Public information is excluded."), "{xml}");
    assert!(xml.contains("These exceptions apply."), "{xml}");
}
