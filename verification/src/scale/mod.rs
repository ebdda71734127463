//! Scaling of streaming jobs: where actors run and which virtual nodes they own.
pub mod accepted;
pub mod actors;
pub mod alignment;
pub mod arrange;
pub mod arrange_laws;
pub mod assemble;
pub mod check_laws;
pub mod checks;
pub mod context;
pub mod context_laws;
pub mod control;
pub mod counterparts;
pub mod creation;
pub mod creation_laws;
pub mod fragment;
pub mod link_laws;
pub mod links;
pub mod model;
pub mod no_shuffle;
pub mod ownership;
pub mod prepare;
pub mod rebalance;
pub mod relation;
pub mod reschedule_laws;
pub mod resize;
pub mod resize_laws;
pub mod resized;
pub mod revision;
pub mod ring;
pub mod ring_laws;
pub mod settle;
pub mod upstream_laws;
pub mod share_laws;
pub mod stable;
pub mod stable_laws;
pub mod table_laws;
pub mod table_parallelism;
pub mod tables;
pub mod units;
pub mod wiring_laws;
