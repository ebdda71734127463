//! Small data structures shared by the other modules.
pub mod bitmap;
pub mod collections;
pub mod laws;
pub mod table_distribution;
pub mod worker;
