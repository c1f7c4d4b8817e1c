use draftos::error::CoreError;
use draftos::package::package;
use draftos::wordml::{docx_paragraphs, heading_level_from_style, normalize_ws, step, DocxWalk, XmlEvent};
use draftos::xml::next_paragraph_span;

#[test]
fn paragraph_spans_are_captured_whole_and_skip_ppr() {
    let xml = r#"<w:body><w:p w:rsidR="00A"><w:pPr><w:pStyle w:val="Clause2Sub"/></w:pPr><w:r><w:t>First &amp; only.</w:t></w:r></w:p><w:p><w:r><w:t>Second</w:t></w:r></w:p></w:body>"#;
    let mut from = 0;
    let p1 = next_paragraph_span(xml, &mut from).unwrap();
    assert!(p1.starts_with("<w:p ") && p1.ends_with("</w:p>"), "whole element: {p1}");
    assert!(p1.contains(r#"w:val="Clause2Sub""#));
    assert!(p1.contains("First &amp; only."));
    let p2 = next_paragraph_span(xml, &mut from).unwrap();
    assert_eq!(p2, "<w:p><w:r><w:t>Second</w:t></w:r></w:p>");
    assert!(next_paragraph_span(xml, &mut from).is_none());
}

#[test]
fn heading_levels_from_styles() {
    assert_eq!(heading_level_from_style("Heading1"), Some(1));
    assert_eq!(heading_level_from_style("heading 3"), Some(3));
    assert_eq!(heading_level_from_style("Title"), Some(1));
    assert_eq!(heading_level_from_style("Heading10"), None);
    assert_eq!(heading_level_from_style("Heading0"), None);
    assert_eq!(heading_level_from_style("Heading+2"), Some(2));
    assert_eq!(heading_level_from_style("Normal"), None);
    assert_eq!(heading_level_from_style("Heading"), None);
}

#[test]
fn whitespace_is_normalised() {
    assert_eq!(normalize_ws("  a \t b\n c  "), "a b c");
    assert_eq!(normalize_ws("   "), "");
}

fn open(name: &str, val: Option<&str>) -> XmlEvent {
    XmlEvent::Open(
        name.to_string(),
        val.map(|v| vec![("val".to_string(), v.to_string())]).unwrap_or_default(),
    )
}

#[test]
fn the_walk_collects_paragraph_text_and_levels() {
    let xml = r#"<w:p><w:pPr><w:pStyle w:val="Heading2"/></w:pPr><w:r><w:t>A</w:t><w:tab/><w:t>B</w:t></w:r></w:p><w:p></w:p>"#;
    let mut w = DocxWalk::new();
    let events = vec![
        open("p", None),
        open("pPr", None),
        open("pStyle", Some("Heading2")),
        XmlEvent::Close("pPr".into()),
        open("r", None),
        XmlEvent::Text("A".into()),
        open("tab", None),
        XmlEvent::Text("B".into()),
        XmlEvent::Close("r".into()),
        XmlEvent::Close("p".into()),
        open("p", None),
        XmlEvent::Close("p".into()),
        XmlEvent::Other,
    ];
    for ev in &events {
        step(&mut w, xml, ev).unwrap();
    }
    assert_eq!(w.paragraphs.len(), 1);
    assert_eq!(w.paragraphs[0].text, "A B");
    assert_eq!(w.paragraphs[0].heading_level, Some(2));
    assert_eq!(
        w.paragraphs[0].ooxml.as_deref(),
        Some(r#"<w:p><w:pPr><w:pStyle w:val="Heading2"/></w:pPr><w:r><w:t>A</w:t><w:tab/><w:t>B</w:t></w:r></w:p>"#)
    );
    assert_eq!(w.scan_from, xml.chars().count());
}

#[test]
fn docx_paragraphs_reads_the_document_part() {
    let xml = r#"<?xml version="1.0"?><w:document xmlns:w="w"><w:body><w:p><w:pPr><w:pStyle w:foo="x" w:val="Heading1"/></w:pPr><w:r><w:t>TERMS &amp; CONDITIONS</w:t></w:r></w:p><w:p><w:r><w:t xml:space="preserve">  The  fee</w:t><w:br/><w:t>is due.</w:t></w:r></w:p><w:p/></w:body></w:document>"#;
    let bytes = package(&vec![("word/document.xml".to_string(), xml.to_string())]).unwrap();
    let ps = docx_paragraphs(&bytes, "a.docx").unwrap();
    assert_eq!(ps.len(), 2);
    assert_eq!(ps[0].text, "TERMS & CONDITIONS");
    assert_eq!(ps[0].heading_level, Some(1));
    assert_eq!(ps[1].text, "The fee is due.");
    assert_eq!(ps[1].heading_level, None);

    let broken = package(&vec![("word/document.xml".to_string(), "<w:p><w:t>x</w:q></w:p>".to_string())]).unwrap();
    match docx_paragraphs(&broken, "b.docx") {
        Err(CoreError::Parse { file, message }) => {
            assert_eq!(file, "b.docx");
            assert!(message.starts_with("xml error: "), "{message}");
        }
        other => panic!("{other:?}"),
    }
    assert!(docx_paragraphs(b"not a zip", "c.docx").is_err());
}

#[test]
fn text_is_unescaped_only_inside_paragraphs() {
    let xml = r#"<w:document xmlns:w="w"><w:body>&bogus;<w:p><w:r><w:t>A &lt; B</w:t></w:r></w:p></w:body></w:document>"#;
    let bytes = package(&vec![("word/document.xml".to_string(), xml.to_string())]).unwrap();
    let ps = docx_paragraphs(&bytes, "a.docx").unwrap();
    assert_eq!(ps.len(), 1);
    assert_eq!(ps[0].text, "A < B");
    assert_eq!(ps[0].ooxml.as_deref(), Some("<w:p><w:r><w:t>A &lt; B</w:t></w:r></w:p>"));

    let bad = r#"<w:document xmlns:w="w"><w:body><w:p><w:r><w:t>A &bogus; B</w:t></w:r></w:p></w:body></w:document>"#;
    let bytes = package(&vec![("word/document.xml".to_string(), bad.to_string())]).unwrap();
    match docx_paragraphs(&bytes, "b.docx") {
        Err(CoreError::Parse { file, message }) => {
            assert_eq!(file, "b.docx");
            assert!(message.starts_with("bad xml text: "), "{message}");
        }
        other => panic!("{other:?}"),
    }
}
