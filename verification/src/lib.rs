//! An in-process full-text search library.
//!
//! A corpus of structured documents is turned into an inverted index whose
//! vocabulary is held in a minimized term automaton. Queries are expanded
//! against that automaton (exact terms, `*` globs and bounded edit distance)
//! and evaluated with boolean presence rules over sparse term vectors.

pub mod builder;
pub mod document;
pub mod field;
pub mod index;
pub mod pairs;
pub mod pipeline;
pub mod query;
pub mod set;
pub mod text;
pub mod token;
pub mod tokenizer;
pub mod vector;
