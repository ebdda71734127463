//! What the cluster knows: its workers, and the objects of its databases.
pub mod catalog_laws;
pub mod cluster;
pub mod cluster_laws;
pub mod database;
pub mod listing;
pub mod objects;
pub mod refs;
pub mod registration;
pub mod worker_record;
