//! Which files the parsers take, and which parser each goes to.

use vstd::prelude::*;
use crate::chars::{self, chars_of, string_of, to_lower};
use crate::strs::{self, owned, opt_view};
use crate::model::str_eq;
use crate::error::CoreError;

verus! {

/// The extension of the path's file name (after its last dot; none for a
/// name without a dot or a leading-dot name without another), as
/// `std::path::Path::extension` gives it.
pub uninterp spec fn path_ext(p: Seq<char>) -> Option<Seq<char>>;

/// The path's final component, as `std::path::Path::file_name` gives it.
pub uninterp spec fn path_file_name(p: Seq<char>) -> Option<Seq<char>>;

/// Calls `std::path::Path::extension` on the path; its result is named
/// `path_ext`.
#[verifier::external_body]
fn path_extension(p: &str) -> (r: Option<String>)
    ensures
        opt_view(r) == path_ext(p@),
{
    std::path::Path::new(p).extension().and_then(|e| e.to_str()).map(|e| e.to_string())
}

/// Calls `std::path::Path::file_name` on the path; its result is named
/// `path_file_name`.
#[verifier::external_body]
fn file_name(p: &str) -> (r: Option<String>)
    ensures
        opt_view(r) == path_file_name(p@),
{
    std::path::Path::new(p).file_name().and_then(|n| n.to_str()).map(|n| n.to_string())
}

/// File extensions the ingestion pipeline picks up.
pub open spec fn supported_extensions() -> Seq<Seq<char>> {
    seq!["docx"@, "pdf"@, "txt"@, "md"@, "html"@, "htm"@]
}

/// Whether the parsers take a file, judged by its extension (ASCII case
/// ignored).
pub fn is_supported(path: &str) -> (r: bool)
    ensures
        r == (match path_ext(path@) {
            Some(e) => supported_extensions().contains(chars::lower(e)),
            None => false,
        }),
{
    match path_extension(path) {
        Some(e) => {
            let l = string_of(to_lower(chars_of(e.as_str()).as_slice()).as_slice());
            let s = l.as_str();
            let r = str_eq(s, "docx") || str_eq(s, "pdf") || str_eq(s, "txt") || str_eq(s, "md")
                || str_eq(s, "html") || str_eq(s, "htm");
            proof {
                let ext = supported_extensions();
                if r {
                    assert(ext[0] == "docx"@ && ext[1] == "pdf"@ && ext[2] == "txt"@ && ext[3] == "md"@ && ext[4] == "html"@ && ext[5] == "htm"@);
                } else {
                    assert forall|k: int| 0 <= k < ext.len() implies ext[k] != l@ by {}
                }
            }
            r
        },
        None => false,
    }
}

#[derive(Debug, Clone, Copy, PartialEq, Eq, Structural)]
pub enum FileKind {
    Docx,
    Pdf,
    Text,
    Html,
}

/// The parser a file goes to, by its lower-cased extension.
pub open spec fn kind_for(ext: Seq<char>) -> Option<FileKind> {
    if ext == "docx"@ {
        Some(FileKind::Docx)
    } else if ext == "pdf"@ {
        Some(FileKind::Pdf)
    } else if ext == "txt"@ || ext == "md"@ {
        Some(FileKind::Text)
    } else if ext == "html"@ || ext == "htm"@ {
        Some(FileKind::Html)
    } else {
        None
    }
}

/// A path's lower-cased extension, empty when it has none.
pub open spec fn ext_of(path: Seq<char>) -> Seq<char> {
    match path_ext(path) {
        Some(e) => chars::lower(e),
        None => Seq::empty(),
    }
}

/// How to parse a file: which parser, and the file name recorded on the
/// document ("unknown" when the path has none). An extension no parser takes
/// is an unsupported-file-type error naming it.
pub fn parse_plan(path: &str) -> (r: Result<(FileKind, String), CoreError>)
    ensures
        match kind_for(ext_of(path@)) {
            Some(k) => r matches Ok((kind, name)) && kind == k
                && name@ == (match path_file_name(path@) { Some(n) => n, None => "unknown"@ }),
            None => r matches Err(CoreError::UnsupportedFileType(e)) && e@ == ext_of(path@),
        },
{
    let ext = match path_extension(path) {
        Some(e) => string_of(to_lower(chars_of(e.as_str()).as_slice()).as_slice()),
        None => String::new(),
    };
    let name = match file_name(path) {
        Some(n) => n,
        None => owned("unknown"),
    };
    let e = ext.as_str();
    if str_eq(e, "docx") {
        Ok((FileKind::Docx, name))
    } else if str_eq(e, "pdf") {
        Ok((FileKind::Pdf, name))
    } else if str_eq(e, "txt") || str_eq(e, "md") {
        Ok((FileKind::Text, name))
    } else if str_eq(e, "html") || str_eq(e, "htm") {
        Ok((FileKind::Html, name))
    } else {
        Err(CoreError::UnsupportedFileType(ext))
    }
}

/// The file types ingestion takes: Word documents, PDF, plain text,
/// Markdown and HTML, by these extensions (ASCII case ignored).
pub proof fn lemma_supported_extensions_as_listed()
    ensures
        ({
            let e = supported_extensions();
            &&& e.len() == 6
            &&& e[0] == "docx"@ && e[1] == "pdf"@ && e[2] == "txt"@
            &&& e[3] == "md"@ && e[4] == "html"@ && e[5] == "htm"@
        }),
{
}

} // verus!
