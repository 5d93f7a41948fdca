//! Parallel primitives on sequences, with proofs of what they compute.
//!
//! The primitives are compaction by flags (`pack`), concatenation
//! (`flatten`) and splitting into tokens (`tokens`, `map_tokens`).  They are
//! built on a scan over blocks (`sequence_ops`) and on the filling of
//! separate regions of one buffer by independent blocks (`ragged`); the
//! parallel work is done by rayon (`par`).
//!
//! The other modules hold what is built with the primitives: inverted
//! indexes, word counts, and helpers for geometric searches.

pub mod blocks;
pub mod chan05;
pub mod convex_hull;
pub mod counts;
pub mod documents;
pub mod flags;
pub mod flatten;
pub mod geometry;
pub mod index_laws;
pub mod index_parallel;
pub mod index_serial;
pub mod index_value;
pub mod monoid;
pub mod pack;
pub mod par;
pub mod postings;
pub mod primitives;
pub mod ragged;
pub mod sequence_ops;
pub mod sorted;
pub mod text;
pub mod tokens;
pub mod wc_histogram;
pub mod wc_serial;
