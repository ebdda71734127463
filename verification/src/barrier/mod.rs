//! Barriers: how they are injected, collected and completed, epoch by epoch.
pub mod checkpoint;
pub mod commit;
pub mod commit_laws;
pub mod laws;
pub mod manager;
pub mod model;
