//! Which workers there are, which are alive, and what they offer.
use crate::common::worker::{is_unschedulable, HostAddress, Node, ParallelUnit, Property, WorkerNode};
use crate::common::worker::{WorkerState, WorkerType};
use crate::manager::cluster::{hosts_distinct, place_of_id, ClusterError};
use crate::manager::cluster::ClusterManagerCore;
use crate::manager::registration::lemma_same_hosts_ids;
use crate::manager::worker_record::{listed, to_listed, Record, INVALID_EXPIRE_AT};
use std::collections::BTreeMap;
use vstd::prelude::*;

verus! {

broadcast use {
    vstd::std_specs::btree::group_btree_axioms,
    vstd::laws_cmp::group_laws_cmp,
};

/// The worker is of the kind and in the state that are asked for.
pub open spec fn matches_filter(
    node: Node,
    worker_type: Option<WorkerType>,
    worker_state: Option<WorkerState>,
) -> bool {
    (worker_type matches Some(t) ==> node.worker_type == t) && (worker_state matches Some(s)
        ==> node.state == s)
}

/// The workers of the kind and in the state that are asked for.
pub open spec fn filtered(
    ws: Seq<Record>,
    worker_type: Option<WorkerType>,
    worker_state: Option<WorkerState>,
) -> Seq<Node>
    decreases ws.len(),
{
    if ws.len() == 0 {
        Seq::empty()
    } else {
        let before = filtered(ws.drop_last(), worker_type, worker_state);
        let node = listed(ws.last());
        if matches_filter(node, worker_type, worker_state) {
            before.push(node)
        } else {
            before
        }
    }
}

/// The workers and the meta node, of the kind and in the state that are asked for.
pub open spec fn listing(
    ws: Seq<Record>,
    meta: Node,
    worker_type: Option<WorkerType>,
    worker_state: Option<WorkerState>,
) -> Seq<Node> {
    let workers = filtered(ws, worker_type, worker_state);
    if matches_filter(meta, worker_type, worker_state) {
        workers.push(meta)
    } else {
        workers
    }
}

/// Which use of compute nodes is asked for.
#[derive(Clone, Copy, Debug, PartialEq, Eq, Structural)]
pub enum NodeUse {
    Streaming,
    Serving,
}

/// The worker is used so.
pub open spec fn used_for(property: Option<Property>, node_use: NodeUse) -> bool {
    property matches Some(p) && (match node_use {
        NodeUse::Streaming => p.is_streaming,
        NodeUse::Serving => p.is_serving,
    })
}

/// The nodes that are used so.
pub open spec fn nodes_used_for(nodes: Seq<Node>, node_use: NodeUse) -> Seq<Node>
    decreases nodes.len(),
{
    if nodes.len() == 0 {
        Seq::empty()
    } else if used_for(nodes.last().property, node_use) {
        nodes_used_for(nodes.drop_last(), node_use).push(nodes.last())
    } else {
        nodes_used_for(nodes.drop_last(), node_use)
    }
}

/// The nodes of workers.
pub open spec fn nodes_of(workers: Seq<WorkerNode>) -> Seq<Node> {
    Seq::new(workers.len(), |i: int| workers[i]@)
}

/// The nodes that are unschedulable, or those that are not.
pub open spec fn by_schedulability(nodes: Seq<Node>, unschedulable: bool) -> Seq<Node>
    decreases nodes.len(),
{
    if nodes.len() == 0 {
        Seq::empty()
    } else if is_unschedulable(nodes.last().property) == unschedulable {
        by_schedulability(nodes.drop_last(), unschedulable).push(nodes.last())
    } else {
        by_schedulability(nodes.drop_last(), unschedulable)
    }
}

/// The nodes by id.
pub open spec fn nodes_by_id(nodes: Seq<Node>) -> Map<u32, Node>
    decreases nodes.len(),
{
    if nodes.len() == 0 {
        Map::empty()
    } else {
        nodes_by_id(nodes.drop_last()).insert(nodes.last().id, nodes.last())
    }
}

/// Parallel units are entered by id.
pub open spec fn enter_units(m: Map<u32, ParallelUnit>, units: Seq<ParallelUnit>) -> Map<
    u32,
    ParallelUnit,
>
    decreases units.len(),
{
    if units.len() == 0 {
        m
    } else {
        enter_units(m, units.drop_last()).insert(units.last().id, units.last())
    }
}

/// The parallel units of nodes by id.
pub open spec fn units_by_id(nodes: Seq<Node>) -> Map<u32, ParallelUnit>
    decreases nodes.len(),
{
    if nodes.len() == 0 {
        Map::empty()
    } else {
        enter_units(units_by_id(nodes.drop_last()), nodes.last().parallel_units)
    }
}

/// What the scheduling of a streaming job needs to know of the cluster.
#[derive(Debug)]
pub struct StreamingClusterInfo {
    /// All running compute nodes that are schedulable.
    pub worker_nodes: BTreeMap<u32, WorkerNode>,
    /// Their parallel units.
    pub parallel_units: BTreeMap<u32, ParallelUnit>,
    /// The parallel units of the unschedulable ones.
    pub unschedulable_parallel_units: BTreeMap<u32, ParallelUnit>,
}

/// The nodes behind a map.
pub open spec fn node_map(m: Map<u32, WorkerNode>) -> Map<u32, Node> {
    Map::new(|k: u32| m.contains_key(k), |k: u32| m[k]@)
}

/// How many workers there are of a kind.
pub open spec fn count_of(ws: Seq<Record>, worker_type: WorkerType) -> nat
    decreases ws.len(),
{
    if ws.len() == 0 {
        0
    } else {
        count_of(ws.drop_last(), worker_type) + if ws.last().node.worker_type == worker_type {
            1nat
        } else {
            0nat
        }
    }
}

/// How many workers there are of each kind that is monitored.
#[derive(Clone, Copy, Debug, PartialEq, Eq, Structural)]
pub struct WorkerCounts {
    pub compactor: u64,
    pub compute_node: u64,
    pub frontend: u64,
    pub meta: u64,
}

/// The worker has the given schedulability, if it is among those that are asked for and a property says
/// so.
pub open spec fn scheduled_as(record: Record, ids: Seq<u32>, unschedulable: bool) -> Record {
    match record.node.property {
        Some(p) if ids.contains(record.node.id) => Record {
            node: Node {
                property: Some(Property { is_unschedulable: unschedulable, ..p }),
                ..record.node
            },
            ..record
        },
        _ => record,
    }
}

/// The worker is among those that are asked for, and its schedulability differs.
pub open spec fn schedulability_differs(record: Record, ids: Seq<u32>, unschedulable: bool) -> bool {
    record.node.property matches Some(p) && ids.contains(record.node.id) && p.is_unschedulable
        != unschedulable
}

/// The ids of the workers whose schedulability differs.
pub open spec fn differing(ws: Seq<Record>, ids: Seq<u32>, unschedulable: bool) -> Seq<u32>
    decreases ws.len(),
{
    if ws.len() == 0 {
        Seq::empty()
    } else if schedulability_differs(ws.last(), ids, unschedulable) {
        differing(ws.drop_last(), ids, unschedulable).push(ws.last().node.id)
    } else {
        differing(ws.drop_last(), ids, unschedulable)
    }
}

/// The record after its time to expire is set, if it had none.
pub open spec fn with_expiry(record: Record, expire_at: u64) -> Record {
    if record.expire_at == INVALID_EXPIRE_AT {
        Record { expire_at, ..record }
    } else {
        record
    }
}

/// The workers that have expired.
pub open spec fn expired_at(ws: Seq<Record>, now: u64) -> Seq<Record>
    decreases ws.len(),
{
    if ws.len() == 0 {
        Seq::empty()
    } else if ws.last().expire_at < now {
        expired_at(ws.drop_last(), now).push(ws.last())
    } else {
        expired_at(ws.drop_last(), now)
    }
}

/// Whether a worker that is gone had a channel that is to be closed.
pub fn has_sender(worker_type: WorkerType) -> (res: bool)
    ensures
        res == (worker_type == WorkerType::Frontend || worker_type == WorkerType::ComputeNode
            || worker_type == WorkerType::Compactor || worker_type == WorkerType::RiseCtl),
{
    match worker_type {
        WorkerType::Frontend | WorkerType::ComputeNode | WorkerType::Compactor | WorkerType::RiseCtl => true,
        _ => false,
    }
}

/// Whether the node is of the kind and in the state that are asked for.
fn check_filter(
    node: &WorkerNode,
    worker_type: Option<WorkerType>,
    worker_state: Option<WorkerState>,
) -> (res: bool)
    ensures
        res == matches_filter(node@, worker_type, worker_state),
{
    (match worker_type {
        Some(t) => node.worker_type == t,
        None => true,
    }) && (match worker_state {
        Some(s) => node.state == s,
        None => true,
    })
}

/// Whether the list has the id.
fn has_id(ids: &Vec<u32>, id: u32) -> (res: bool)
    ensures
        res == ids@.contains(id),
{
    let mut i: usize = 0;
    while i < ids.len()
        invariant
            i <= ids.len(),
            forall|j: int| 0 <= j < i ==> #[trigger] ids@[j] != id,
        decreases ids.len() - i,
    {
        if ids[i] == id {
            return true;
        }
        i = i + 1;
    }
    false
}

impl ClusterManagerCore {
    /// The workers and the meta node, of the kind and in the state that are asked for.
    pub fn list_worker_node(
        &self,
        worker_type: Option<WorkerType>,
        worker_state: Option<WorkerState>,
        meta: WorkerNode,
    ) -> (res: Vec<WorkerNode>)
        ensures
            nodes_of(res@) == listing(self@, meta@, worker_type, worker_state),
    {
        let ghost ws = self@;
        let mut res: Vec<WorkerNode> = Vec::new();
        let mut i: usize = 0;
        assert(ws.take(0) =~= Seq::<Record>::empty());
        assert(nodes_of(res@) =~= Seq::<Node>::empty());
        while i < self.workers.len()
            invariant
                i <= self.workers.len(),
                ws == self@,
                nodes_of(res@) == filtered(ws.take(i as int), worker_type, worker_state),
            decreases self.workers.len() - i,
        {
            assert(ws.take(i + 1).drop_last() =~= ws.take(i as int));
            assert(ws.take(i + 1).last() == self.workers@[i as int]@);
            let node = to_listed(&self.workers[i]);
            let ghost before = nodes_of(res@);
            if check_filter(&node, worker_type, worker_state) {
                let ghost v = node@;
                res.push(node);
                assert(nodes_of(res@) =~= before.push(v));
            }
            i = i + 1;
        }
        assert(ws.take(i as int) =~= ws);
        let ghost before = nodes_of(res@);
        if check_filter(&meta, worker_type, worker_state) {
            let ghost v = meta@;
            res.push(meta);
            assert(nodes_of(res@) =~= before.push(v));
        }
        res
    }

    /// The compute nodes that are used so, in the state that is asked for.
    fn list_used_for(&self, node_use: NodeUse, worker_state: Option<WorkerState>, meta: WorkerNode) -> (res:
        Vec<WorkerNode>)
        ensures
            nodes_of(res@) == nodes_used_for(
                listing(self@, meta@, Some(WorkerType::ComputeNode), worker_state),
                node_use,
            ),
    {
        let nodes = self.list_worker_node(Some(WorkerType::ComputeNode), worker_state, meta);
        let ghost all = nodes@;
        let ghost views = nodes_of(all);
        let mut res: Vec<WorkerNode> = Vec::new();
        assert(views.take(0) =~= Seq::<Node>::empty());
        assert(nodes_of(res@) =~= Seq::<Node>::empty());
        for node in it: nodes
            invariant
                it.seq() == all,
                views == nodes_of(all),
                nodes_of(res@) == nodes_used_for(views.take(it.index() as int), node_use),
        {
            let ghost i: int = it.index() as int;
            assert(views.take(i + 1).drop_last() =~= views.take(i));
            assert(views.take(i + 1).last() == node@);
            let keep: bool = match node.property {
                Some(p) => match node_use {
                    NodeUse::Streaming => p.is_streaming,
                    NodeUse::Serving => p.is_serving,
                },
                None => false,
            };
            let ghost before = nodes_of(res@);
            if keep {
                let ghost v = node@;
                res.push(node);
                assert(nodes_of(res@) =~= before.push(v));
            }
        }
        assert(views.take(views.len() as int) =~= views);
        res
    }

    /// The compute nodes that run streaming jobs, in the state that is asked for.
    pub fn list_streaming_worker_node(&self, worker_state: Option<WorkerState>, meta: WorkerNode) -> (res:
        Vec<WorkerNode>)
        ensures
            nodes_of(res@) == nodes_used_for(
                listing(self@, meta@, Some(WorkerType::ComputeNode), worker_state),
                NodeUse::Streaming,
            ),
    {
        self.list_used_for(NodeUse::Streaming, worker_state, meta)
    }

    /// The compute nodes that serve queries, in the state that is asked for.
    pub fn list_serving_worker_node(&self, worker_state: Option<WorkerState>, meta: WorkerNode) -> (res:
        Vec<WorkerNode>)
        ensures
            nodes_of(res@) == nodes_used_for(
                listing(self@, meta@, Some(WorkerType::ComputeNode), worker_state),
                NodeUse::Serving,
            ),
    {
        self.list_used_for(NodeUse::Serving, worker_state, meta)
    }

    /// The running compute nodes that run streaming jobs, on which actors may be.
    pub fn list_active_streaming_compute_nodes(&self, meta: WorkerNode) -> (res: Vec<WorkerNode>)
        ensures
            nodes_of(res@) == nodes_used_for(
                listing(
                    self@,
                    meta@,
                    Some(WorkerType::ComputeNode),
                    Some(WorkerState::Running),
                ),
                NodeUse::Streaming,
            ),
    {
        self.list_streaming_worker_node(Some(WorkerState::Running), meta)
    }

    /// The running compute nodes that serve queries.
    pub fn list_active_serving_compute_nodes(&self, meta: WorkerNode) -> (res: Vec<WorkerNode>)
        ensures
            nodes_of(res@) == nodes_used_for(
                listing(
                    self@,
                    meta@,
                    Some(WorkerType::ComputeNode),
                    Some(WorkerState::Running),
                ),
                NodeUse::Serving,
            ),
    {
        self.list_serving_worker_node(Some(WorkerState::Running), meta)
    }

    /// What the scheduling of a streaming job needs to know of the cluster.
    pub fn get_streaming_cluster_info(&self, meta: WorkerNode) -> (res: StreamingClusterInfo)
        ensures
            ({
                let running = nodes_used_for(
                    listing(
                        self@,
                        meta@,
                        Some(WorkerType::ComputeNode),
                        Some(WorkerState::Running),
                    ),
                    NodeUse::Streaming,
                );
                let active = by_schedulability(running, false);
                &&& node_map(res.worker_nodes@) == nodes_by_id(active)
                &&& res.parallel_units@ == units_by_id(active)
                &&& res.unschedulable_parallel_units@ == units_by_id(
                    by_schedulability(running, true),
                )
            }),
    {
        let nodes = self.list_streaming_worker_node(Some(WorkerState::Running), meta);
        let ghost all = nodes@;
        let ghost views = nodes_of(all);
        let mut worker_nodes: BTreeMap<u32, WorkerNode> = BTreeMap::new();
        let mut parallel_units: BTreeMap<u32, ParallelUnit> = BTreeMap::new();
        let mut unschedulable_parallel_units: BTreeMap<u32, ParallelUnit> = BTreeMap::new();
        assert(views.take(0) =~= Seq::<Node>::empty());
        assert(node_map(worker_nodes@) =~= Map::<u32, Node>::empty());
        for node in it: nodes
            invariant
                it.seq() == all,
                views == nodes_of(all),
                node_map(worker_nodes@) == nodes_by_id(
                    by_schedulability(views.take(it.index() as int), false),
                ),
                parallel_units@ == units_by_id(
                    by_schedulability(views.take(it.index() as int), false),
                ),
                unschedulable_parallel_units@ == units_by_id(
                    by_schedulability(views.take(it.index() as int), true),
                ),
        {
            let ghost i: int = it.index() as int;
            let ghost active = by_schedulability(views.take(i), false);
            let ghost others = by_schedulability(views.take(i), true);
            assert(views.take(i + 1).drop_last() =~= views.take(i));
            assert(views.take(i + 1).last() == node@);
            assert(active.push(node@).drop_last() =~= active);
            assert(others.push(node@).drop_last() =~= others);
            if node.unschedulable() {
                insert_units(&mut unschedulable_parallel_units, &node.parallel_units);
            } else {
                insert_units(&mut parallel_units, &node.parallel_units);
                let ghost before = node_map(worker_nodes@);
                let ghost v = node@;
                worker_nodes.insert(node.id, node);
                assert(node_map(worker_nodes@) =~= before.insert(v.id, v));
            }
        }
        assert(views.take(views.len() as int) =~= views);
        StreamingClusterInfo { worker_nodes, parallel_units, unschedulable_parallel_units }
    }

    /// How many workers there are of each kind that is monitored.
    pub fn count_worker_node(&self) -> (res: WorkerCounts)
        ensures
            res.compactor == count_of(self@, WorkerType::Compactor),
            res.compute_node == count_of(self@, WorkerType::ComputeNode),
            res.frontend == count_of(self@, WorkerType::Frontend),
            res.meta == count_of(self@, WorkerType::Meta),
    {
        let ghost ws = self@;
        let mut res = WorkerCounts { compactor: 0, compute_node: 0, frontend: 0, meta: 0 };
        let mut i: usize = 0;
        assert(ws.take(0) =~= Seq::<Record>::empty());
        while i < self.workers.len()
            invariant
                i <= self.workers.len(),
                ws == self@,
                res.compactor == count_of(ws.take(i as int), WorkerType::Compactor),
                res.compute_node == count_of(ws.take(i as int), WorkerType::ComputeNode),
                res.frontend == count_of(ws.take(i as int), WorkerType::Frontend),
                res.meta == count_of(ws.take(i as int), WorkerType::Meta),
                res.compactor <= i,
                res.compute_node <= i,
                res.frontend <= i,
                res.meta <= i,
            decreases self.workers.len() - i,
        {
            assert(ws.take(i + 1).drop_last() =~= ws.take(i as int));
            assert(ws.take(i + 1).last() == self.workers@[i as int]@);
            match self.workers[i].worker_node.worker_type {
                WorkerType::Compactor => {
                    res.compactor = res.compactor + 1;
                },
                WorkerType::ComputeNode => {
                    res.compute_node = res.compute_node + 1;
                },
                WorkerType::Frontend => {
                    res.frontend = res.frontend + 1;
                },
                WorkerType::Meta => {
                    res.meta = res.meta + 1;
                },
                _ => {},
            }
            i = i + 1;
        }
        assert(ws.take(i as int) =~= ws);
        res
    }

    /// The ids of the workers that a change of schedulability changes; they are to be stored.
    pub fn schedulability_changes(&self, worker_ids: &Vec<u32>, unschedulable: bool) -> (res: Vec<u32>)
        ensures
            res@ == differing(self@, worker_ids@, unschedulable),
    {
        let ghost ws = self@;
        let mut res: Vec<u32> = Vec::new();
        let mut i: usize = 0;
        assert(ws.take(0) =~= Seq::<Record>::empty());
        while i < self.workers.len()
            invariant
                i <= self.workers.len(),
                ws == self@,
                res@ == differing(ws.take(i as int), worker_ids@, unschedulable),
            decreases self.workers.len() - i,
        {
            assert(ws.take(i + 1).drop_last() =~= ws.take(i as int));
            assert(ws.take(i + 1).last() == self.workers@[i as int]@);
            let node = &self.workers[i].worker_node;
            if let Some(p) = node.property {
                if p.is_unschedulable != unschedulable && has_id(worker_ids, node.id) {
                    res.push(node.id);
                }
            }
            i = i + 1;
        }
        assert(ws.take(i as int) =~= ws);
        res
    }

    /// Makes workers schedulable or unschedulable.
    pub fn update_schedulability(&mut self, worker_ids: &Vec<u32>, unschedulable: bool)
        requires
            old(self).wf(),
        ensures
            final(self).wf(),
            final(self)@.len() == old(self)@.len(),
            forall|i: int|
                0 <= i < old(self)@.len() ==> #[trigger] final(self)@[i] == scheduled_as(
                    old(self)@[i],
                    worker_ids@,
                    unschedulable,
                ),
            final(self).available_transactional_ids == old(self).available_transactional_ids,
            final(self).started_at == old(self).started_at,
    {
        let ghost ws = self@;
        let mut i: usize = 0;
        while i < self.workers.len()
            invariant
                i <= self.workers.len(),
                self.workers@.len() == ws.len(),
                self.available_transactional_ids == old(self).available_transactional_ids,
                self.started_at == old(self).started_at,
                forall|j: int|
                    0 <= j < i ==> (#[trigger] self.workers@[j])@ == scheduled_as(
                        ws[j],
                        worker_ids@,
                        unschedulable,
                    ),
                forall|j: int| i <= j < ws.len() ==> (#[trigger] self.workers@[j])@ == ws[j],
            decreases self.workers.len() - i,
        {
            assert(self.workers@[i as int]@ == ws[i as int]);
            let id: u32 = self.workers[i].worker_node.id;
            if let Some(p) = self.workers[i].worker_node.property {
                if has_id(worker_ids, id) {
                    let worker = &mut self.workers[i];
                    worker.worker_node.property = Some(
                        Property {
                            is_streaming: p.is_streaming,
                            is_serving: p.is_serving,
                            is_unschedulable: unschedulable,
                        },
                    );
                }
            }
            i = i + 1;
        }
        proof {
            assert forall|j: int| 0 <= j < ws.len() implies #[trigger] self@[j] == scheduled_as(
                ws[j],
                worker_ids@,
                unschedulable,
            ) by {
                assert(self@[j] == self.workers@[j]@);
            }
            lemma_same_hosts_ids(ws, self@, self.available_transactional_ids@);
        }
    }

    /// A worker was heard of: it expires later, and what it reported is kept.
    pub fn heartbeat(&mut self, worker_id: u32, expire_at: u64, info: Vec<u64>) -> (res: Result<
        (),
        ClusterError,
    >)
        requires
            old(self).wf(),
        ensures
            final(self).wf(),
            final(self).available_transactional_ids == old(self).available_transactional_ids,
            final(self).started_at == old(self).started_at,
            match place_of_id(old(self)@, worker_id) {
                Some(i) => {
                    &&& res is Ok
                    &&& final(self)@ == old(self)@.update(
                        i,
                        (Record { expire_at, info: info@, ..old(self)@[i] }),
                    )
                },
                None => {
                    &&& res == Err::<(), ClusterError>(ClusterError::InvalidWorker { worker_id })
                    &&& final(self)@ == old(self)@
                },
            },
    {
        let ghost ws = self@;
        let i: usize = match self.find_by_id(worker_id) {
            Some(i) => i,
            None => {
                return Err(ClusterError::InvalidWorker { worker_id });
            },
        };
        assert(ws[i as int] == self.workers@[i as int]@);
        let ghost reported = info@;
        let worker = &mut self.workers[i];
        worker.expire_at = expire_at;
        worker.info = info;
        proof {
            let seen = Record { expire_at, info: reported, ..ws[i as int] };
            assert(self@ =~= ws.update(i as int, seen));
            lemma_same_hosts_ids(ws, self@, self.available_transactional_ids@);
        }
        Ok(())
    }

    /// Gives workers that have none a time to expire.
    pub fn init_expire_at(&mut self, expire_at: u64)
        requires
            old(self).wf(),
        ensures
            final(self).wf(),
            final(self)@.len() == old(self)@.len(),
            forall|i: int|
                0 <= i < old(self)@.len() ==> #[trigger] final(self)@[i] == with_expiry(
                    old(self)@[i],
                    expire_at,
                ),
            final(self).available_transactional_ids == old(self).available_transactional_ids,
            final(self).started_at == old(self).started_at,
    {
        let ghost ws = self@;
        let mut i: usize = 0;
        while i < self.workers.len()
            invariant
                i <= self.workers.len(),
                self.workers@.len() == ws.len(),
                self.available_transactional_ids == old(self).available_transactional_ids,
                self.started_at == old(self).started_at,
                forall|j: int|
                    0 <= j < i ==> (#[trigger] self.workers@[j])@ == with_expiry(ws[j], expire_at),
                forall|j: int| i <= j < ws.len() ==> (#[trigger] self.workers@[j])@ == ws[j],
            decreases self.workers.len() - i,
        {
            assert(self.workers@[i as int]@ == ws[i as int]);
            if self.workers[i].expire_at == INVALID_EXPIRE_AT {
                let worker = &mut self.workers[i];
                worker.expire_at = expire_at;
            }
            i = i + 1;
        }
        proof {
            assert forall|j: int| 0 <= j < ws.len() implies #[trigger] self@[j] == with_expiry(
                ws[j],
                expire_at,
            ) by {
                assert(self@[j] == self.workers@[j]@);
            }
            lemma_same_hosts_ids(ws, self@, self.available_transactional_ids@);
        }
    }

    /// The ids and addresses of the workers that have expired.
    pub fn expired_workers(&self, now: u64) -> (res: Vec<(u32, HostAddress)>)
        requires
            self.wf(),
        ensures
            ({
                let gone = expired_at(self@, now);
                &&& res@.len() == gone.len()
                &&& forall|i: int|
                    0 <= i < gone.len() ==> (#[trigger] res@[i]).0 == gone[i].node.id && Some(
                        res@[i].1@,
                    ) == gone[i].node.host
            }),
    {
        let ghost ws = self@;
        let mut res: Vec<(u32, HostAddress)> = Vec::new();
        let mut i: usize = 0;
        assert(ws.take(0) =~= Seq::<Record>::empty());
        while i < self.workers.len()
            invariant
                i <= self.workers.len(),
                ws == self@,
                hosts_distinct(ws),
                res@.len() == expired_at(ws.take(i as int), now).len(),
                forall|j: int|
                    0 <= j < res@.len() ==> (#[trigger] res@[j]).0 == expired_at(
                        ws.take(i as int),
                        now,
                    )[j].node.id && Some(res@[j].1@) == expired_at(
                        ws.take(i as int),
                        now,
                    )[j].node.host,
            decreases self.workers.len() - i,
        {
            assert(ws.take(i + 1).drop_last() =~= ws.take(i as int));
            assert(ws.take(i + 1).last() == self.workers@[i as int]@);
            assert(ws[i as int].node.host is Some);
            let worker = &self.workers[i];
            if worker.expire_at < now {
                if let Some(host) = &worker.worker_node.host {
                    res.push((worker.worker_node.id, host.clone()));
                }
            }
            i = i + 1;
        }
        assert(ws.take(i as int) =~= ws);
        res
    }
}

/// Enters parallel units by id.
fn insert_units(m: &mut BTreeMap<u32, ParallelUnit>, units: &Vec<ParallelUnit>)
    ensures
        final(m)@ == enter_units(old(m)@, units@),
{
    let ghost m0 = m@;
    let mut i: usize = 0;
    assert(units@.take(0) =~= Seq::<ParallelUnit>::empty());
    while i < units.len()
        invariant
            i <= units.len(),
            m@ == enter_units(m0, units@.take(i as int)),
        decreases units.len() - i,
    {
        assert(units@.take(i + 1).drop_last() =~= units@.take(i as int));
        assert(units@.take(i + 1).last() == units@[i as int]);
        m.insert(units[i].id, units[i]);
        i = i + 1;
    }
    assert(units@.take(i as int) =~= units@);
}

} // verus!
