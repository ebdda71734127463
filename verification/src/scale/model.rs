//! Workers, fragments, actors and dispatchers as the scaling rules see them.
use crate::common::bitmap::Bitmap;
use crate::common::collections::same_set;
use crate::common::worker::ParallelUnit;
use std::collections::BTreeMap;
use std::collections::BTreeSet;
use vstd::prelude::*;

verus! {

/// How rows travel from an upstream actor to its downstream actors.
#[derive(Clone, Copy, Debug, PartialEq, Eq, Structural)]
pub enum DispatcherType {
    Unspecified,
    Hash,
    Broadcast,
    Simple,
    NoShuffle,
}

/// How the rows of a fragment are spread over its actors.
#[derive(Clone, Copy, Debug, PartialEq, Eq, Structural)]
pub enum FragmentDistributionType {
    Unspecified,
    Single,
    Hash,
}

/// How many actors a table is to run with.
#[derive(Clone, Copy, Debug, PartialEq, Eq, Structural)]
pub enum TableParallelism {
    /// As many as the cluster has parallel units.
    Adaptive,
    /// A fixed number.
    Fixed(usize),
    /// Set by hand, fragment by fragment.
    Custom,
}

/// The state of a streaming job.
#[derive(Clone, Copy, Debug, PartialEq, Eq, Structural)]
pub enum TableState {
    Unspecified,
    Initial,
    Creating,
    Created,
}

/// Whether an actor has been started.
#[derive(Clone, Copy, Debug, PartialEq, Eq, Structural)]
pub enum ActorState {
    Inactive,
    Running,
}

/// Where an actor runs.
#[derive(Clone, Copy, Debug, PartialEq, Eq, Structural)]
pub struct ActorStatus {
    pub parallel_unit: Option<ParallelUnit>,
    pub state: ActorState,
}

/// The owner of each virtual node.
#[derive(Debug)]
pub struct ActorMapping {
    pub owners: Vec<u32>,
}

impl View for ActorMapping {
    type V = Seq<u32>;

    open spec fn view(&self) -> Seq<u32> {
        self.owners@
    }
}

/// One outgoing edge of an actor.
#[derive(Debug)]
pub struct Dispatcher {
    pub dispatcher_type: DispatcherType,
    pub dispatcher_id: u64,
    pub hash_mapping: Option<ActorMapping>,
    pub downstream_actor_id: Vec<u32>,
}

/// What the scaling rules need to know of one actor.
#[derive(Debug)]
pub struct CustomActorInfo {
    pub actor_id: u32,
    pub fragment_id: u32,
    pub dispatcher: Vec<Dispatcher>,
    pub upstream_actor_id: Vec<u32>,
    pub vnode_bitmap: Option<Bitmap>,
}

/// What an operator of an actor does, as far as scaling is concerned.
#[derive(Debug)]
pub enum NodeBody {
    /// Receives the rows of the given upstream actors.
    Merge { upstream_fragment_id: u32, upstream_actor_id: Vec<u32> },
    /// Reads a source; a source without an inner stream has no splits to place.
    Source { has_inner_stream: bool },
    /// Anything else.
    Other,
}

/// The operators of an actor, as a tree.
#[derive(Debug)]
pub struct StreamNode {
    pub node_body: NodeBody,
    pub input: Vec<StreamNode>,
}

/// An actor with its operators.
#[derive(Debug)]
pub struct StreamActor {
    pub actor_id: u32,
    pub fragment_id: u32,
    pub nodes: Option<StreamNode>,
    pub dispatcher: Vec<Dispatcher>,
    pub upstream_actor_id: Vec<u32>,
    pub vnode_bitmap: Option<Bitmap>,
}

/// What the scaling rules need to know of one fragment.
#[derive(Debug)]
pub struct CustomFragmentInfo {
    pub fragment_id: u32,
    pub fragment_type_mask: u32,
    pub distribution_type: FragmentDistributionType,
    pub state_table_ids: Vec<u32>,
    pub upstream_fragment_ids: Vec<u32>,
    pub actor_template: StreamActor,
    pub actors: Vec<CustomActorInfo>,
}

impl CustomFragmentInfo {
    /// The flags of the kinds of operators in the fragment.
    pub fn get_fragment_type_mask(&self) -> (res: u32)
        ensures
            res == self.fragment_type_mask,
    {
        self.fragment_type_mask
    }

    /// How the rows of the fragment are spread.
    pub fn distribution_type(&self) -> (res: FragmentDistributionType)
        ensures
            res == self.distribution_type,
    {
        self.distribution_type
    }
}

/// A streaming job: its fragments, where their actors run, and its parallelism.
#[derive(Debug)]
pub struct TableFragments {
    pub table_id: u32,
    pub state: TableState,
    pub fragments: BTreeMap<u32, CustomFragmentInfo>,
    pub actor_status: BTreeMap<u32, ActorStatus>,
    pub assigned_parallelism: TableParallelism,
}

/// The parallel units that a fragment gains and loses.
#[derive(Debug)]
pub struct ParallelUnitReschedule {
    pub added_parallel_units: BTreeSet<u32>,
    pub removed_parallel_units: BTreeSet<u32>,
}

/// What a fragment gains and loses, as sets.
pub struct UnitChange {
    pub added: Set<u32>,
    pub removed: Set<u32>,
}

impl View for ParallelUnitReschedule {
    type V = UnitChange;

    open spec fn view(&self) -> UnitChange {
        UnitChange { added: self.added_parallel_units@, removed: self.removed_parallel_units@ }
    }
}

/// Options of a reschedule.
#[derive(Clone, Copy, Debug)]
pub struct RescheduleOptions {
    /// Whether to resolve the upstream of `NoShuffle` relations: all reschedules in a tree of
    /// such relations have to agree, and are moved to the root of the tree.
    pub resolve_no_shuffle_upstream: bool,
    /// Whether to leave new actors uncreated.
    pub skip_create_new_actors: bool,
}

/// The workers that tables may use, and the parallelism that each table is to have.
#[derive(Debug)]
pub struct TableResizePolicy {
    pub worker_ids: BTreeSet<u32>,
    pub table_parallelisms: BTreeMap<u32, TableParallelism>,
}

/// Why a reschedule or a resize is refused.
#[derive(Clone, Copy, Debug, PartialEq, Eq, Structural)]
pub enum ScaleError {
    NoComputeNode,
    UnschedulableParallelUnit { fragment_id: u32, parallel_unit_id: u32, worker_id: u32 },
    InconsistentNoShufflePlan { fragment_id: u32, upstream_fragment_id: u32 },
    UpstreamTableParallelism { upstream_table_id: u32, parallelism: TableParallelism },
    FragmentNotFound { fragment_id: u32 },
    TableNotCreated { fragment_id: u32, state: TableState },
    NoShuffleDownstream { fragment_id: u32 },
    NoActorOnParallelUnit { fragment_id: u32, parallel_unit_id: u32 },
    ParallelUnitNotAvailable { parallel_unit_id: u32 },
    ParallelUnitInUse { fragment_id: u32, parallel_unit_id: u32 },
    RemovesAllParallelUnits { fragment_id: u32 },
    SingleOnlyMigrates { fragment_id: u32 },
    UnschedulableWorker { worker_id: u32 },
    WorkerInBothLists { worker_id: u32 },
    WorkerNotFound { worker_id: u32 },
    NoSchedulableParallelUnit { fragment_id: u32 },
    BothTargetParallelisms { fragment_id: u32 },
    TargetParallelismTooLarge { fragment_id: u32, target: usize, available: usize },
    DownstreamActorNotFound { actor_id: u32, downstream_actor_id: u32 },
    NoSingleTarget { fragment_id: u32 },
    TasksExceedCapacity,
    TasksNotDistributed,
    ActorWithoutParallelUnit { actor_id: u32 },
    ParallelUnitWithoutWorker { parallel_unit_id: u32 },
    WorkerOfActorNotFound { worker_id: u32 },
    ParallelUnitNotFound { parallel_unit_id: u32 },
}

/// A plan that can be copied and compared.
pub trait PlanOps: View + Sized {
    /// A plan that says the same.
    fn copy_plan(&self) -> (res: Self)
        ensures
            res@ == self@,
    ;

    /// Whether the plans say the same.
    fn same_plan(&self, other: &Self) -> (res: bool)
        ensures
            res == (self@ == other@),
    ;
}

impl PlanOps for ParallelUnitReschedule {
    fn copy_plan(&self) -> (res: ParallelUnitReschedule) {
        ParallelUnitReschedule {
            added_parallel_units: self.added_parallel_units.clone(),
            removed_parallel_units: self.removed_parallel_units.clone(),
        }
    }

    fn same_plan(&self, other: &ParallelUnitReschedule) -> (res: bool) {
        same_set(&self.added_parallel_units, &other.added_parallel_units) && same_set(
            &self.removed_parallel_units,
            &other.removed_parallel_units,
        )
    }
}

} // verus!
