use draftos::embed::{fnv1a, HashEmbedder};
use draftos::files::{is_supported, parse_plan, FileKind};
use draftos::search::{hex, sanitize_fts_query};
use draftos::error::CoreError;
use draftos::ids::new_id;

#[test]
fn fnv1a_matches_the_reference_values() {
    assert_eq!(fnv1a(b""), 0xcbf29ce484222325);
    assert_eq!(fnv1a(b"a"), 0xaf63dc4c8601ec8c);
}

#[test]
fn embedder_identity_and_slots() {
    let e = HashEmbedder::new(HashEmbedder::default_dims());
    assert_eq!(e.id(), "hash-v1@256");
    assert_eq!(e.dims(), 256);
    let (i, _) = e.slot(b"terminate");
    assert!(i < 256);
    assert_eq!(e.slot(b"terminate"), e.slot(b"terminate"));
}

#[test]
fn fts_queries_quote_each_word() {
    assert_eq!(sanitize_fts_query("terminate the agreement"), "\"terminate\" OR \"the\" OR \"agreement\"");
    assert_eq!(sanitize_fts_query("a-b  (c)"), "\"a\" OR \"b\" OR \"c\"");
    assert_eq!(sanitize_fts_query("--"), "");
}

#[test]
fn hex_is_lowercase_two_digits_per_byte() {
    assert_eq!(hex(&[0x00, 0xab, 0x7f]), "00ab7f");
}

#[test]
fn supported_files_by_extension() {
    assert!(is_supported("/a/b/Contract.DOCX"));
    assert!(is_supported("notes.md"));
    assert!(!is_supported("image.png"));
    assert!(!is_supported("README"));
    assert!(matches!(parse_plan("/x/y/loan.PDF"), Ok((FileKind::Pdf, n)) if n == "loan.PDF"));
    assert!(matches!(parse_plan("page.htm"), Ok((FileKind::Html, _))));
    assert!(matches!(parse_plan("a.png"), Err(CoreError::UnsupportedFileType(e)) if e == "png"));
}

#[test]
fn ids_are_hyphenated_lowercase_uuids_and_differ() {
    let a = new_id();
    let b = new_id();
    assert_eq!(a.len(), 36);
    for (i, c) in a.chars().enumerate() {
        if [8, 13, 18, 23].contains(&i) {
            assert_eq!(c, '-');
        } else {
            assert!(c.is_ascii_digit() || ('a'..='f').contains(&c), "{a}");
        }
    }
    assert_ne!(a, b);
}
