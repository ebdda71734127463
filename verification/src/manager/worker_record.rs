//! What is kept of a worker.
use crate::common::worker::{copy_resource, machine, Endpoint, HostAddress, Machine, Node};
use crate::common::worker::{ParallelUnit, Property, Resource, WorkerNode, WorkerState, WorkerType};
use vstd::prelude::*;

verus! {

/// The value of `expire_at` of a worker that has not been given a time to expire yet.
pub const INVALID_EXPIRE_AT: u64 = 0;

/// A worker with what is not stored of it.
#[derive(Debug)]
pub struct Worker {
    pub worker_node: WorkerNode,
    /// When the worker counts as gone unless it is heard of.
    pub expire_at: u64,
    pub started_at: Option<u64>,
    pub resource: Option<Resource>,
    /// What the worker last reported.
    pub info: Vec<u64>,
}

/// A worker record as plain values.
pub struct Record {
    pub node: Node,
    pub expire_at: u64,
    pub started_at: Option<u64>,
    pub resource: Option<Machine>,
    pub info: Seq<u64>,
}

impl View for Worker {
    type V = Record;

    open spec fn view(&self) -> Record {
        Record {
            node: self.worker_node@,
            expire_at: self.expire_at,
            started_at: self.started_at,
            resource: machine(self.resource),
            info: self.info@,
        }
    }
}

/// Copies what a worker reported.
fn copy_info(info: &Vec<u64>) -> (res: Vec<u64>)
    ensures
        res@ == info@,
{
    let res = info.clone();
    assert(res@ =~= info@);
    res
}

impl Clone for Worker {
    fn clone(&self) -> (res: Worker)
        ensures
            res@ == self@,
    {
        Worker {
            worker_node: self.worker_node.clone(),
            expire_at: self.expire_at,
            started_at: self.started_at,
            resource: copy_resource(&self.resource),
            info: copy_info(&self.info),
        }
    }
}

impl Worker {
    /// The record of a stored worker.
    pub fn from_node(worker_node: WorkerNode) -> (res: Worker)
        ensures
            res@ == (Record {
                node: worker_node@,
                expire_at: INVALID_EXPIRE_AT,
                started_at: None,
                resource: None,
                info: Seq::empty(),
            }),
    {
        let res = Worker {
            worker_node,
            expire_at: INVALID_EXPIRE_AT,
            started_at: None,
            resource: None,
            info: Vec::new(),
        };
        assert(res.info@ =~= Seq::<u64>::empty());
        res
    }
}

/// The worker with what is known of the machine that it runs on.
pub open spec fn listed(record: Record) -> Node {
    Node { resource: record.resource, started_at: record.started_at, ..record.node }
}

/// The worker with what is known of the machine that it runs on.
pub fn to_listed(worker: &Worker) -> (res: WorkerNode)
    ensures
        res@ == listed(worker@),
{
    let mut node = worker.worker_node.clone();
    node.resource = copy_resource(&worker.resource);
    node.started_at = worker.started_at;
    node
}

/// How a worker that registers is to be used.
#[derive(Clone, Copy, Debug, PartialEq, Eq, Structural)]
pub struct AddNodeProperty {
    pub worker_node_parallelism: u64,
    pub is_streaming: bool,
    pub is_serving: bool,
    pub is_unschedulable: bool,
}

/// What a worker is used for; only compute nodes are used for anything that has to be said.
pub open spec fn property_of(worker_type: WorkerType, p: AddNodeProperty) -> Option<Property> {
    if worker_type == WorkerType::ComputeNode {
        Some(
            Property {
                is_streaming: p.is_streaming,
                is_serving: p.is_serving,
                is_unschedulable: p.is_unschedulable,
            },
        )
    } else {
        None
    }
}

/// What a worker is used for.
pub fn parse_property(worker_type: WorkerType, worker_property: AddNodeProperty) -> (res: Option<
    Property,
>)
    ensures
        res == property_of(worker_type, worker_property),
{
    if worker_type == WorkerType::ComputeNode {
        Some(
            Property {
                is_streaming: worker_property.is_streaming,
                is_serving: worker_property.is_serving,
                is_unschedulable: worker_property.is_unschedulable,
            },
        )
    } else {
        None
    }
}

/// Parallel units with consecutive ids.
pub open spec fn new_units(start_id: u32, degree: nat, worker_id: u32) -> Seq<ParallelUnit> {
    Seq::new(
        degree,
        |i: int| ParallelUnit { id: (start_id + i) as u32, worker_node_id: worker_id },
    )
}

/// Makes parallel units for a worker, with the ids from `start_id` on.
pub fn generate_cn_parallel_units(start_id: u32, parallel_degree: usize, worker_id: u32) -> (res: Vec<
    ParallelUnit,
>)
    requires
        start_id + parallel_degree <= u32::MAX,
    ensures
        res@ == new_units(start_id, parallel_degree as nat, worker_id),
{
    let mut res: Vec<ParallelUnit> = Vec::new();
    let mut i: usize = 0;
    while i < parallel_degree
        invariant
            i <= parallel_degree,
            start_id + parallel_degree <= u32::MAX,
            res@ == new_units(start_id, i as nat, worker_id),
        decreases parallel_degree - i,
    {
        res.push(ParallelUnit { id: start_id + i as u32, worker_node_id: worker_id });
        i = i + 1;
        assert(res@ =~= new_units(start_id, i as nat, worker_id));
    }
    res
}

/// The address of a worker, as it is looked up by.
#[derive(Debug)]
pub struct WorkerKey(pub HostAddress);

impl View for WorkerKey {
    type V = Endpoint;

    open spec fn view(&self) -> Endpoint {
        self.0@
    }
}

/// The id that is kept for the meta node; no worker has it.
pub const META_NODE_ID: u32 = 0;

/// The meta node, as it is listed among the workers.
pub fn meta_node_info(
    host: Option<HostAddress>,
    started_at: Option<u64>,
    resource: Resource,
) -> (res: WorkerNode)
    ensures
        res@ == (Node {
            id: META_NODE_ID,
            worker_type: WorkerType::Meta,
            host: crate::common::worker::endpoint(host),
            state: WorkerState::Running,
            parallel_units: Seq::empty(),
            property: None,
            transactional_id: None,
            resource: Some(resource@),
            started_at,
        }),
{
    let res = WorkerNode {
        id: META_NODE_ID,
        worker_type: WorkerType::Meta,
        host,
        state: WorkerState::Running,
        parallel_units: Vec::new(),
        property: None,
        transactional_id: None,
        resource: Some(resource),
        started_at,
    };
    assert(res.parallel_units@ =~= Seq::<ParallelUnit>::empty());
    res
}

} // verus!
