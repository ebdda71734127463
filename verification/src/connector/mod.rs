//! Sources and stores outside the cluster.
pub mod client;
pub mod laws;
pub mod mock_external_table;
pub mod webhdfs;
