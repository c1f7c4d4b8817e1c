//! The library's error type.

use vstd::prelude::*;

verus! {

#[derive(Debug)]
pub enum CoreError {
    /// The file's extension is not one the parsers handle.
    UnsupportedFileType(String),
    /// A file could not be parsed.
    Parse { file: String, message: String },
    /// A knowledge-source index (or package) operation failed.
    Index(String),
    Embedding(String),
    /// A knowledge source could not be used.
    Source(String),
    /// Drafting could not proceed.
    Assembly(String),
    /// An I/O operation failed; the message is the system's.
    Io(String),
    /// A value could not be (de)serialised.
    Serde(String),
}

/// What an error says to a user.
pub open spec fn error_message(e: CoreError) -> Seq<char> {
    match e {
        CoreError::UnsupportedFileType(t) => "unsupported file type: "@ + t@,
        CoreError::Parse { file, message } => "parse error in "@ + file@ + ": "@ + message@,
        CoreError::Index(m) => "index error: "@ + m@,
        CoreError::Embedding(m) => "embedding error: "@ + m@,
        CoreError::Source(m) => "knowledge source error: "@ + m@,
        CoreError::Assembly(m) => "assembly error: "@ + m@,
        CoreError::Io(m) => "io error: "@ + m@,
        CoreError::Serde(m) => "serialization error: "@ + m@,
    }
}

impl CoreError {
    /// The error's message, as it is shown to a user.
    pub fn message(&self) -> (r: String)
        ensures
            r@ == error_message(*self),
    {
        let mut s = String::new();
        match self {
            CoreError::UnsupportedFileType(t) => {
                crate::chars::push_str(&mut s, "unsupported file type: ");
                crate::chars::push_str(&mut s, t.as_str());
            },
            CoreError::Parse { file, message } => {
                crate::chars::push_str(&mut s, "parse error in ");
                crate::chars::push_str(&mut s, file.as_str());
                crate::chars::push_str(&mut s, ": ");
                crate::chars::push_str(&mut s, message.as_str());
            },
            CoreError::Index(m) => {
                crate::chars::push_str(&mut s, "index error: ");
                crate::chars::push_str(&mut s, m.as_str());
            },
            CoreError::Embedding(m) => {
                crate::chars::push_str(&mut s, "embedding error: ");
                crate::chars::push_str(&mut s, m.as_str());
            },
            CoreError::Source(m) => {
                crate::chars::push_str(&mut s, "knowledge source error: ");
                crate::chars::push_str(&mut s, m.as_str());
            },
            CoreError::Assembly(m) => {
                crate::chars::push_str(&mut s, "assembly error: ");
                crate::chars::push_str(&mut s, m.as_str());
            },
            CoreError::Io(m) => {
                crate::chars::push_str(&mut s, "io error: ");
                crate::chars::push_str(&mut s, m.as_str());
            },
            CoreError::Serde(m) => {
                crate::chars::push_str(&mut s, "serialization error: ");
                crate::chars::push_str(&mut s, m.as_str());
            },
        }
        s
    }
}

} // verus!
