//! Streaming jobs: how they are created, cancelled, dropped and resized.
pub mod jobs;
pub mod laws;
pub mod locations;
pub mod resize;
