//! High-performance text analysis for full-text search.
//!
//! Unicode word and sentence segmentation (UAX #29) driven by a hand-rolled
//! deterministic finite automaton, plus an analysis pipeline (length limit,
//! lowercasing, stemming) on top of it.
pub mod analyze;
pub mod consumer;
pub mod features;
pub mod corpus;
pub mod kuromoji;
pub mod text;
pub mod uax29;
