//! Tokenizer that turns text into word tokens for spell checking.
//!
//! The text-level helpers live in [`text`], the regular expressions that
//! classify chunks in [`patterns`], and the tokenizer itself in
//! [`tokenizer`]. The properties that tie them together are stated and
//! proved in [`laws`].

pub mod text;
pub mod patterns;
pub mod tokenizer;
pub mod laws;
