//! Expressions: aggregate functions and errors.
pub mod agg_call;
pub mod agg_kind;
pub mod error;
pub mod kind_laws;
pub mod laws;
