//! Splits a line-oriented input into numbered pieces at points described by a
//! small pattern language: absolute line numbers, regular-expression matches
//! with optional line offsets, and repetition suffixes.  The core turns a list
//! of pattern tokens into a queue of split directives, walks the input line by
//! line to place piece boundaries, and accounts for each piece's byte range
//! under the suppression, elision and reporting policies.

pub mod account;
pub mod laws;
pub mod behaviour;
pub mod directive;
pub mod engine;
pub mod errors;
pub mod expand;
pub mod parse;
pub mod rx;
pub mod split;
