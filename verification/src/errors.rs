//! The errors that parsing reports.

pub mod error_types;
