//! The document model: values, attributes, nodes and documents, with their
//! canonical textual form.

pub mod syntax_tree_types;
pub mod escaping;
