//! Operations on values.
pub mod compare;
pub mod laws;
