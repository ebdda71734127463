//! The frontend: binding names, planning relations and handling statements.
pub mod alter_source;
pub mod binder;
pub mod declare_cursor;
pub mod group_topn;
pub mod laws;
pub mod parameters;
pub mod plan_laws;
pub mod planner;
pub mod source_laws;
pub mod types;
pub mod udf;
