//! The parser: from tokens to a document.

pub mod parser_types;
pub mod document_rules;
