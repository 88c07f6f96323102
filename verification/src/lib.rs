//! Number sets and numeral encodings.
//!
//! The crate turns a textual description of a set of non-negative integers
//! into an explicit list of candidates, and renders a chosen integer in
//! binary, decimal, hexadecimal or Base64.

pub mod base;
pub mod converter;
pub mod format;
pub mod laws;
pub mod lex;
pub mod parse;
pub mod radix;
pub mod text;
