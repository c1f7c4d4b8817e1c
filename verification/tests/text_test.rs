use draftos::plaintext::paragraphs_from_plain_text;

#[test]
fn one_clause_per_line_stays_one_paragraph_per_clause() {
    let text = "1. DEFINITIONS\n\
                1.1 In this Agreement the following terms apply:\n\
                \"Business Day\" means any day other than a Saturday.\n\
                2. APPOINTMENT\n\
                2.1 The Customer appoints the Provider to render the Services.\n";
    let paras = paragraphs_from_plain_text(text);
    let texts: Vec<&str> = paras.iter().map(|p| p.text.as_str()).collect();
    assert_eq!(texts.len(), 5, "{texts:?}");
    assert_eq!(texts[0], "1. DEFINITIONS");
    assert_eq!(texts[3], "2. APPOINTMENT");
}

#[test]
fn hard_wrapped_prose_still_joins() {
    let text = "2.1 The Customer appoints the Provider to render the\n\
                Services with effect from the Commencement Date, and the\n\
                Provider accepts the appointment.\n";
    let paras = paragraphs_from_plain_text(text);
    assert_eq!(paras.len(), 1, "{paras:?}");
    assert!(paras[0].text.contains("Commencement Date, and the Provider"));
}

#[test]
fn a_heading_never_absorbs_the_line_below_it() {
    let text = "SCHEDULE 1\n\
                The Services and the fees payable are set out in this Schedule 1.\n";
    let paras = paragraphs_from_plain_text(text);
    assert_eq!(paras.len(), 2, "{paras:?}");
    assert_eq!(paras[0].text, "SCHEDULE 1");
}

#[test]
fn blank_lines_still_separate() {
    let paras = paragraphs_from_plain_text("first para\n\nsecond para\n");
    assert_eq!(paras.len(), 2);
}

#[test]
fn empty_text_has_no_paragraphs() {
    assert!(paragraphs_from_plain_text("").is_empty());
    assert!(paragraphs_from_plain_text("\n\n   \n").is_empty());
}

#[test]
fn paragraph_splitting_keeps_every_word_in_order() {
    let text = "AGREEMENT\n\n1. The  parties\nagree as follows;\nSCHEDULE 1\n\t  the   end  ";
    let ps = draftos::plaintext::paragraphs_from_plain_text(text);
    let words: Vec<&str> = ps.iter().flat_map(|p| p.text.split_whitespace()).collect();
    assert_eq!(words, text.split_whitespace().collect::<Vec<_>>());
    assert!(ps.iter().any(|p| p.text == "AGREEMENT"));
    assert!(ps.iter().any(|p| p.text == "SCHEDULE 1"));
    assert!(ps.iter().all(|p| !p.text.is_empty() && p.heading_level.is_none()));
}
