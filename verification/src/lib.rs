//! An incremental front-end for a line-oriented Lisp-like language.
//!
//! Source lines are tokenized by a position-tracking lexer, checked for
//! structural well-formedness, handed to an external S-expression parser,
//! and the per-line results are kept in a content-addressed cache so that
//! re-processing unchanged lines after an edit is avoided.

pub mod text;
pub mod token;
pub mod lexer;
pub mod content_key;
pub mod sexp;
pub mod cache_store;
pub mod syntax_parser;
