//! Single-pass grouping and per-key aggregation over sequences.
//!
//! A source of items and a key selector give a key-tagged sequence; the
//! aggregation engine drains it once and keeps one accumulator per key.
pub mod model;
pub mod sequence;
pub mod collection;
pub mod laws;
