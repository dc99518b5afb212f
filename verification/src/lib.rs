//! Aggregation of search-hit scores into per-query, per-target totals.

pub mod error;
pub mod grid;
pub mod hash;
pub mod hits;
pub mod offsets;
pub mod score;
pub mod table;
pub mod tally;
pub mod target_map;
