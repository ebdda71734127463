//! Barriers, commands and responses as the barrier rules see them.
use std::collections::BTreeMap;
use std::collections::BTreeSet;
use vstd::prelude::*;

verus! {

broadcast use {vstd::std_specs::btree::group_btree_axioms, vstd::laws_cmp::group_laws_cmp};

/// What a barrier does to the epochs before it.
#[derive(Debug)]
pub enum BarrierKind {
    /// The first barrier after a recovery.
    Initial,
    /// A barrier that commits nothing.
    Barrier,
    /// A barrier that commits the given epochs.
    Checkpoint(Vec<u64>),
}

impl BarrierKind {
    /// Whether the barrier commits.
    pub fn is_checkpoint(&self) -> (res: bool)
        ensures
            res == (self is Checkpoint),
    {
        match self {
            BarrierKind::Checkpoint(_) => true,
            _ => false,
        }
    }
}

/// Why the sources are paused.
#[derive(Clone, Copy, Debug, PartialEq, Eq, Structural)]
pub enum PausedReason {
    ConfigChange,
    Manual,
}

/// What the barrier rules need to know of a command and its place among the epochs.
#[derive(Clone, Copy, Debug, PartialEq, Eq, Structural)]
pub struct CommandContext {
    pub prev_epoch: u64,
    pub curr_epoch: u64,
    /// No barrier may be injected after this one until it is completed.
    pub should_pause_inject_barrier: bool,
    /// The command takes effect with a checkpoint only.
    pub need_checkpoint: bool,
    /// The job that the command cancels.
    pub table_to_cancel: Option<u32>,
}

/// How far an actor has come with filling a new job.
#[derive(Clone, Copy, Debug, PartialEq, Eq, Structural)]
pub struct CreateMviewProgress {
    pub backfill_actor_id: u32,
    pub done: bool,
    pub consumed_epoch: u64,
    pub consumed_rows: u64,
}

/// A file of sorted rows.
#[derive(Debug)]
pub struct SstableInfo {
    pub object_id: u64,
    pub sst_id: u64,
    pub table_ids: Vec<u32>,
}

/// A file that a worker wrote, with the group that it is compacted in.
#[derive(Debug)]
pub struct GroupedSstableInfo {
    pub compaction_group_id: u64,
    pub sst: SstableInfo,
    pub table_stats_map: BTreeMap<u32, TableStats>,
}

/// How much a file changes a table.
#[derive(Clone, Copy, Debug, PartialEq, Eq, Structural)]
pub struct TableStats {
    pub total_key_size: i64,
    pub total_value_size: i64,
    pub total_key_count: i64,
}

/// What a worker answers when a barrier has passed all of its actors.
#[derive(Debug)]
pub struct BarrierCompleteResponse {
    pub worker_id: u32,
    pub create_mview_progress: Vec<CreateMviewProgress>,
    pub synced_sstables: Vec<GroupedSstableInfo>,
    /// The encoded watermarks by table.
    pub table_watermarks: BTreeMap<u32, Vec<u8>>,
    pub old_value_sstables: Vec<SstableInfo>,
}

/// Which workers have still to answer, and what the others answered.
#[derive(Debug)]
pub struct BarrierEpochState {
    pub node_to_collect: BTreeSet<u32>,
    pub resps: Vec<BarrierCompleteResponse>,
}

impl BarrierEpochState {
    /// Some worker has still to answer.
    pub open spec fn inflight(&self) -> bool {
        self.node_to_collect@.len() > 0
    }

    /// Whether some worker has still to answer.
    pub fn is_inflight(&self) -> (res: bool)
        ensures
            res == self.inflight(),
    {
        self.node_to_collect.len() > 0
    }
}

/// A barrier on its way.
#[derive(Debug)]
pub struct EpochNode {
    pub state: BarrierEpochState,
    pub command_ctx: CommandContext,
    pub kind: BarrierKind,
    /// Those that want to hear of the barrier.
    pub notifiers: Vec<u64>,
}

} // verus!
