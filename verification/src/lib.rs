//! Tree Serialization Format (TSF): a line-based textual format for ordered trees.
//!
//! The library holds the format's lexer, parser and canonical serializer, each
//! proved against a specification of the format.

pub mod text;
pub mod ast;
pub mod errors;
pub mod lexer;
pub mod parser;
pub mod roundtrip;
