//! Verified core of a streaming database: the scheduling, metadata, planning and batch-execution
//! rules that the services around it rely on.
pub mod barrier;
pub mod batch;
pub mod common;
pub mod connector;
pub mod expr;
pub mod frontend;
pub mod manager;
pub mod scale;
pub mod standalone;
pub mod standalone_laws;
pub mod stream;
pub mod vector_op;
