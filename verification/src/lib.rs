//! DraftOS: deterministic legal drafting — text extraction, clause
//! segmentation, a contract-type checklist, document validation and rendering,
//! all specified and proved with Verus.

pub mod chars;
pub mod strs;
pub mod checklist;
pub mod model;
pub mod metadata;
pub mod grammar;
pub mod split;
pub mod extract;
pub mod plaintext;
pub mod lir;
pub mod num;
pub mod words;
pub mod patterns;
pub mod ids;
pub mod matter;
pub mod assemble;
pub mod markdown;
pub mod xml;
pub mod docx;
pub mod error;
pub mod package;
pub mod style;
pub mod models;
pub mod prompt;
pub mod embed;
pub mod search;
pub mod files;
pub mod html;
pub mod storage;
pub mod retrieval;
pub mod index;
pub mod ingest;
pub mod preview;
pub mod drafting;
pub mod wordml;
pub mod validate;
