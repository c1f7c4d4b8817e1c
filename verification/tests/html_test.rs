use draftos::html::{decode_entities, paragraphs_from_html};

fn texts(html: &str) -> Vec<(String, Option<u8>)> {
    paragraphs_from_html(html)
        .into_iter()
        .map(|p| (p.text, p.heading_level))
        .collect()
}

#[test]
fn entities_decode_in_order() {
    assert_eq!(decode_entities("a&nbsp;b &amp; c &lt;d&gt; &quot;e&quot; &#39;f&apos;"), "a b & c <d> \"e\" 'f'");
    // `&amp;` is decoded before `&lt;`, so a doubly escaped `<` comes out as `<`.
    assert_eq!(decode_entities("&amp;lt;"), "<");
    assert_eq!(decode_entities("no entities"), "no entities");
}

#[test]
fn headings_blocks_and_scripts() {
    let html = "<html><head><title>Ignored</title></head><body>\
                <h1 class=\"t\">Sale &amp; Purchase</h1>\
                <p>First   para</p><script>var a = 1;</script>\
                <div>Second<br>line</div><H2>Price</h2></body></html>";
    assert_eq!(
        texts(html),
        vec![
            ("Sale & Purchase".to_string(), Some(1)),
            ("First para".to_string(), None),
            ("Second".to_string(), None),
            ("line".to_string(), None),
            ("Price".to_string(), Some(2)),
        ]
    );
}

#[test]
fn inline_tags_become_spaces_and_blank_lines_vanish() {
    let html = "<p>The <b>Seller</b> sells.</p>\n\n<p>  </p><span>tail</span>";
    assert_eq!(
        texts(html),
        vec![("The Seller sells.".to_string(), None), ("tail".to_string(), None)]
    );
}

#[test]
fn empty_heading_and_unclosed_heading() {
    // An empty heading leaves nothing; an unclosed one is just text.
    assert_eq!(texts("<h3> </h3><p>x</p>"), vec![("x".to_string(), None)]);
    assert_eq!(texts("<h2>open"), vec![("open".to_string(), None)]);
}

#[test]
fn style_blocks_are_dropped_case_insensitively() {
    assert_eq!(
        texts("<STYLE>p { color: red }</Style><p>kept</p>"),
        vec![("kept".to_string(), None)]
    );
}
