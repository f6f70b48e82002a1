//! A rule-driven text rewriter: an ordered list of declarative rules is
//! folded over a text buffer, each rule finding occurrences of its pattern
//! and substituting resolved replacement text, optionally re-indented to
//! match the surrounding document.
pub mod config;
pub mod evaluate;
pub mod indent;
pub mod laws;
pub mod render;
pub mod text;
