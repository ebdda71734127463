//! Executors of batch queries.
pub mod groups;
pub mod hash_agg;
pub mod laws;
pub mod memory;
pub mod merge_sort_exchange;
pub mod merged;
pub mod row;
pub mod tallies;
