use draftos::embed::HashEmbedder;
use draftos::models::{messages_parts, role_name, ChatMessage, CompletionRequest, ModelError, Role};
use draftos::wordml::{paragraphs_from_events, XmlEvent};

#[test]
fn body_extracts_system_and_requests_json() {
    let req = CompletionRequest {
        messages: vec![
            ChatMessage::system("You are a legal drafting assistant."),
            ChatMessage::user("Adapt this clause."),
        ],
        max_tokens: 1024,
        json: true,
    };
    let (system, turns) = messages_parts(&req);
    let system = system.unwrap();
    assert!(system.starts_with("You are a legal drafting assistant.\n\n"));
    assert!(system.contains("valid JSON"));
    assert_eq!(turns.len(), 1);
    assert_eq!(role_name(turns[0].0), "user");
    assert_eq!(turns[0].1, "Adapt this clause.");
}

#[test]
fn no_system_prompt_without_system_messages_or_json() {
    let req = CompletionRequest { messages: vec![ChatMessage::user("hi")], max_tokens: 8, json: false };
    let (system, turns) = messages_parts(&req);
    assert!(system.is_none());
    assert_eq!(turns.len(), 1);
    assert_eq!(role_name(Role::Assistant), "assistant");
}

#[test]
fn model_errors_read_as_sentences() {
    let e = ModelError::Api { adapter: "openai".into(), status: 429, body: "slow down".into() };
    assert_eq!(e.message(), "HTTP 429 from openai: slow down");
    let e = ModelError::MissingKey { adapter: "openai".into(), env_var: "OPENAI_API_KEY".into() };
    assert_eq!(
        e.message(),
        "no API key for 'openai': set the OPENAI_API_KEY environment variable or run `draftos model key openai`"
    );
    assert_eq!(ModelError::Refused("no".into()).message(), "the model declined this request: no");
}

#[test]
fn features_are_words_then_trigrams() {
    let e = HashEmbedder::new(HashEmbedder::default_dims());
    let fs = e.features("Terminate!");
    // "terminate": the word, then its seven trigrams.
    assert_eq!(fs.len(), 8);
    assert!(!fs[0].trigram && fs[1..].iter().all(|f| f.trigram));
    assert_eq!((fs[0].slot, fs[0].negative), e.slot(b"terminate"));
    assert_eq!((fs[1].slot, fs[1].negative), e.slot(b"ter"));
    assert_eq!((fs[7].slot, fs[7].negative), e.slot(b"ate"));
    let short = e.features("A bc, Def");
    assert_eq!(short.len(), 3);
    assert!(short.iter().all(|f| !f.trigram));
}

#[test]
fn docx_events_make_styled_paragraphs() {
    let xml = "<w:body><w:p><w:pPr><w:pStyle w:val=\"Heading1\"/></w:pPr><w:r><w:t>Title</w:t></w:r></w:p>\
               <w:p><w:r><w:t>First</w:t><w:tab/><w:t>line</w:t></w:r></w:p><w:p/></w:body>";
    let open = |n: &str, v: Option<&str>| XmlEvent::Open(
        n.into(),
        v.map(|v| vec![("val".to_string(), v.to_string())]).unwrap_or_default(),
    );
    let close = |n: &str| XmlEvent::Close(n.into());
    let events = vec![
        open("body", None),
        open("p", None),
        open("pPr", None),
        open("pStyle", Some("Heading1")),
        close("pPr"),
        open("r", None),
        open("t", None),
        XmlEvent::Text("Title".into()),
        close("t"),
        close("r"),
        close("p"),
        open("p", None),
        open("r", None),
        open("t", None),
        XmlEvent::Text("First".into()),
        close("t"),
        open("tab", None),
        open("t", None),
        XmlEvent::Text("line".into()),
        close("t"),
        close("r"),
        close("p"),
        open("p", None),
        XmlEvent::Other,
        close("body"),
    ];
    let ps = paragraphs_from_events(xml, &events, "a.docx").unwrap();
    let got: Vec<(String, Option<u8>)> = ps.into_iter().map(|p| (p.text, p.heading_level)).collect();
    assert_eq!(got, vec![("Title".to_string(), Some(1)), ("First line".to_string(), None)]);
}
