//! Lexical-analysis front end for a small, C-like scripting language.
//!
//! The library turns raw source text, given as a sequence of characters, into
//! a flat sequence of classified tokens: keywords, identifiers, literals,
//! operators and punctuation.  The scan is a single forward pass with one
//! character of lookahead; recoverable lexical faults become `INVALID` tokens
//! in the output, while an unterminated string or comment aborts the scan
//! with a reported error.

pub mod laws;
pub mod lexer;
pub mod model;
