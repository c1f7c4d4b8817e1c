use draftos::style::{defined_num_ids, dominant_top_num_id, extract_document_attrs, extract_sect_pr, strip_refs};
use draftos::docx::StyleDonor;
use draftos::error::CoreError;
use draftos::package::{docx_part, package};

#[test]
fn extracts_body_sectpr_and_strips_headers() {
    let doc = r#"<w:body><w:p/><w:sectPr><w:headerReference w:type="default" r:id="rId7"/><w:pgSz w:w="11906" w:h="16838"/><w:pgMar w:top="1440"/></w:sectPr></w:body>"#;
    let sect = extract_sect_pr(doc).unwrap();
    assert!(sect.contains("<w:pgSz"));
    assert!(sect.contains("<w:pgMar"));
    assert!(!sect.contains("headerReference"), "header ref must be stripped");
}

#[test]
fn no_sectpr_returns_none() {
    assert!(extract_sect_pr("<w:body><w:p/></w:body>").is_none());
}

#[test]
fn detects_defined_and_dominant_num_ids() {
    let numbering = r#"<w:numbering><w:num w:numId="51"><w:abstractNumId w:val="9"/></w:num><w:num w:numId="7"><w:abstractNumId w:val="3"/></w:num></w:numbering>"#;
    let ids = defined_num_ids(numbering);
    assert!(ids.contains(&"51".to_string()) && ids.contains(&"7".to_string()));
    let doc = r#"<w:body>
          <w:p><w:pPr><w:numPr><w:ilvl w:val="0"/><w:numId w:val="51"/></w:numPr></w:pPr></w:p>
          <w:p><w:pPr><w:numPr><w:ilvl w:val="1"/><w:numId w:val="51"/></w:numPr></w:pPr></w:p>
          <w:p><w:pPr><w:numPr><w:ilvl w:val="0"/><w:numId w:val="51"/></w:numPr></w:pPr></w:p>
          <w:p><w:pPr><w:numPr><w:ilvl w:val="0"/><w:numId w:val="51"/></w:numPr></w:pPr></w:p>
          <w:p><w:pPr><w:numPr><w:ilvl w:val="0"/><w:numId w:val="7"/></w:numPr></w:pPr></w:p>
        </w:body>"#;
    assert_eq!(dominant_top_num_id(doc, &ids), Some("51".to_string()));
}

#[test]
fn numbering_ids_are_listed_once() {
    let numbering = r#"<w:num w:numId="4"/><w:num w:numId="4"/><w:num w:numId="5"/>"#;
    assert_eq!(defined_num_ids(numbering), vec!["4".to_string(), "5".to_string()]);
}

#[test]
fn undefined_num_ids_do_not_dominate() {
    let doc = r#"<w:p><w:pPr><w:numPr><w:numId w:val="9"/></w:numPr></w:pPr></w:p>"#;
    assert_eq!(dominant_top_num_id(doc, &vec!["1".to_string()]), None);
    assert_eq!(dominant_top_num_id(doc, &vec!["9".to_string()]), Some("9".to_string()));
}

#[test]
fn document_attrs_are_the_root_declarations() {
    let doc = r#"<?xml version="1.0"?><w:document xmlns:w="urn:w" xmlns:r="urn:r"><w:body/></w:document>"#;
    assert_eq!(extract_document_attrs(doc), Some(r#"xmlns:w="urn:w" xmlns:r="urn:r""#.to_string()));
    assert_eq!(extract_document_attrs("<w:document>"), None);
    assert_eq!(extract_document_attrs("<w:body/>"), None);
}

#[test]
fn footer_references_are_stripped_too() {
    let s = r#"<w:sectPr><w:footerReference w:type="default" r:id="rId9"/><w:pgMar w:top="1"/></w:sectPr>"#;
    assert_eq!(strip_refs(s), r#"<w:sectPr><w:pgMar w:top="1"/></w:sectPr>"#);
}

#[test]
fn bytes_that_are_not_a_package_are_refused() {
    match StyleDonor::from_docx_bytes(b"not a zip") {
        Ok(_) => panic!("accepted garbage"),
        Err(e) => assert!(e.message().contains("open donor docx")),
    }
}

#[test]
fn a_rendered_package_donates_its_document_part() {
    let doc = draftos::lir::LirDocument::new(draftos::lir::LirMeta {
        title: "T".into(),
        contract_type: "X".into(),
        jurisdiction: None,
        language: "English".into(),
        matter_id: None,
        created_at: "now".into(),
    });
    let bytes = draftos::docx::render_docx(&doc).unwrap();
    let donor = StyleDonor::from_docx_bytes(&bytes).unwrap();
    assert!(!donor.is_usable());
    assert!(donor.styles_xml.is_none());
    assert!(donor.document_attrs.unwrap().starts_with("xmlns:w="));
}

#[test]
fn docx_part_reads_a_part_and_names_each_failure() {
    let bytes = package(&vec![("word/document.xml".to_string(), "<w:document/>".to_string())]).unwrap();
    assert_eq!(docx_part(&bytes, "word/document.xml", "a.docx").unwrap(), "<w:document/>");
    match docx_part(&bytes, "word/styles.xml", "a.docx") {
        Err(CoreError::Parse { file, message }) => {
            assert_eq!(file, "a.docx");
            assert!(message.starts_with("missing word/styles.xml: "), "{message}");
        }
        other => panic!("{other:?}"),
    }
    match docx_part(b"plain text, not a zip", "word/document.xml", "b.docx") {
        Err(CoreError::Parse { file, message }) => {
            assert_eq!(file, "b.docx");
            assert!(message.starts_with("not a valid docx (zip) file: "), "{message}");
        }
        other => panic!("{other:?}"),
    }
}
