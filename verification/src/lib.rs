//! Compact skip-table codec for sets of Unicode code points.
//!
//! A sorted list of half-open code-point ranges is compiled into a byte
//! stream of boundary deltas plus a sparse list of run headers; membership
//! queries binary-search the headers and then scan the byte stream.

pub mod case_mapping;
pub mod laws;
pub mod raw_emitter;
pub mod skiplist;
