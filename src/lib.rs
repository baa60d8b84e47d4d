//! A line-oriented parser for Unicode Character Database style text:
//! `#` starts a comment, `;` separates fields, blank lines carry nothing.

pub mod text;
pub mod lines;
pub mod fields;
pub mod laws;
