//! A lexical scanner for a small subset of SQL `SELECT` statements.
//!
//! The scanner walks the source text one character at a time, groups characters
//! into lexemes and classifies each one, consulting a caller-supplied keyword
//! table for symbols and reserved words.
pub mod keywords;
pub mod laws;
pub mod scanner;
pub mod text;
pub mod token;
