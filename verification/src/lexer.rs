//! The lexer: from bytes to tokens.

pub mod lexer_types;
pub mod quoted_text;
