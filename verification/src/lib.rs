//! Rendering pipeline for generated source code.
//!
//! A token stream is an ordered tree of literals, layout directives, quoted
//! strings and import references.  The [`formatter::Formatter`] turns write
//! and layout operations into correctly indented text, and the [`js`] module
//! renders a token stream as JavaScript: it collects the import references
//! scattered through the tree, deduplicates and groups them into a sorted
//! import header, and emits the header followed by the body.

pub mod formatter;
pub mod js;
pub mod laws;
pub mod tokens;
