//! A lexical scanner for a small scripting language, together with a
//! diagnostic formatter that renders caret-underlined error excerpts.
//!
//! The scanner turns UTF-8 source text into a sequence of typed tokens,
//! each paired with a byte-offset span into the original source. The
//! formatter maps such a span back to a line/column position and renders
//! the offending line with an underline.

pub mod error_reporting;
pub mod text;
pub mod token;
pub mod tokenizer;
