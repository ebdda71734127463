//! The workers of a cluster.
use vstd::prelude::*;

verus! {

/// A slot of a worker that runs one actor of a fragment.
#[derive(Clone, Copy, Debug, PartialEq, Eq, Structural)]
pub struct ParallelUnit {
    pub id: u32,
    pub worker_node_id: u32,
}

/// What a worker does.
#[derive(Clone, Copy, Debug, PartialEq, Eq, Structural)]
pub enum WorkerType {
    Unspecified,
    Frontend,
    ComputeNode,
    RiseCtl,
    Compactor,
    Meta,
}

/// Whether a worker is ready to serve.
#[derive(Clone, Copy, Debug, PartialEq, Eq, Structural)]
pub enum WorkerState {
    Unspecified,
    Starting,
    Running,
}

/// What a compute node is used for.
#[derive(Clone, Copy, Debug, PartialEq, Eq, Structural)]
pub struct Property {
    pub is_streaming: bool,
    pub is_serving: bool,
    pub is_unschedulable: bool,
}

/// Where a worker is reached.
#[derive(Debug)]
pub struct HostAddress {
    pub host: String,
    pub port: i32,
}

/// A host address as characters and a port.
pub struct Endpoint {
    pub host: Seq<char>,
    pub port: i32,
}

impl View for HostAddress {
    type V = Endpoint;

    open spec fn view(&self) -> Endpoint {
        Endpoint { host: self.host@, port: self.port }
    }
}

impl Clone for HostAddress {
    fn clone(&self) -> (res: HostAddress)
        ensures
            res@ == self@,
    {
        HostAddress { host: self.host.clone(), port: self.port }
    }
}

impl HostAddress {
    /// Whether the addresses are the same.
    pub fn same_host(&self, other: &HostAddress) -> (res: bool)
        ensures
            res == (self@ == other@),
    {
        self.port == other.port && self.host == other.host
    }
}

/// What a worker runs on.
#[derive(Debug)]
pub struct Resource {
    pub rw_version: String,
    pub total_memory_bytes: u64,
    pub total_cpu_cores: u64,
}

/// What a worker runs on, as plain values.
pub struct Machine {
    pub rw_version: Seq<char>,
    pub total_memory_bytes: u64,
    pub total_cpu_cores: u64,
}

impl View for Resource {
    type V = Machine;

    open spec fn view(&self) -> Machine {
        Machine {
            rw_version: self.rw_version@,
            total_memory_bytes: self.total_memory_bytes,
            total_cpu_cores: self.total_cpu_cores,
        }
    }
}

impl Clone for Resource {
    fn clone(&self) -> (res: Resource)
        ensures
            res@ == self@,
    {
        Resource {
            rw_version: self.rw_version.clone(),
            total_memory_bytes: self.total_memory_bytes,
            total_cpu_cores: self.total_cpu_cores,
        }
    }
}

/// A worker.
#[derive(Debug)]
pub struct WorkerNode {
    pub id: u32,
    pub worker_type: WorkerType,
    pub host: Option<HostAddress>,
    pub state: WorkerState,
    pub parallel_units: Vec<ParallelUnit>,
    pub property: Option<Property>,
    pub transactional_id: Option<u32>,
    pub resource: Option<Resource>,
    pub started_at: Option<u64>,
}

/// A worker as plain values.
pub struct Node {
    pub id: u32,
    pub worker_type: WorkerType,
    pub host: Option<Endpoint>,
    pub state: WorkerState,
    pub parallel_units: Seq<ParallelUnit>,
    pub property: Option<Property>,
    pub transactional_id: Option<u32>,
    pub resource: Option<Machine>,
    pub started_at: Option<u64>,
}

/// The endpoint of an address.
pub open spec fn endpoint(host: Option<HostAddress>) -> Option<Endpoint> {
    match host {
        Some(h) => Some(h@),
        None => None,
    }
}

/// The machine of a resource.
pub open spec fn machine(resource: Option<Resource>) -> Option<Machine> {
    match resource {
        Some(r) => Some(r@),
        None => None,
    }
}

impl View for WorkerNode {
    type V = Node;

    open spec fn view(&self) -> Node {
        Node {
            id: self.id,
            worker_type: self.worker_type,
            host: endpoint(self.host),
            state: self.state,
            parallel_units: self.parallel_units@,
            property: self.property,
            transactional_id: self.transactional_id,
            resource: machine(self.resource),
            started_at: self.started_at,
        }
    }
}

/// Copies an address.
pub fn copy_host(host: &Option<HostAddress>) -> (res: Option<HostAddress>)
    ensures
        endpoint(res) == endpoint(*host),
{
    match host {
        Some(h) => Some(h.clone()),
        None => None,
    }
}

/// Copies a resource.
pub fn copy_resource(resource: &Option<Resource>) -> (res: Option<Resource>)
    ensures
        machine(res) == machine(*resource),
{
    match resource {
        Some(r) => Some(r.clone()),
        None => None,
    }
}

/// Copies a list of parallel units.
pub fn copy_units(units: &Vec<ParallelUnit>) -> (res: Vec<ParallelUnit>)
    ensures
        res@ == units@,
{
    let mut res: Vec<ParallelUnit> = Vec::new();
    let mut i: usize = 0;
    while i < units.len()
        invariant
            i <= units.len(),
            res@ == units@.take(i as int),
        decreases units.len() - i,
    {
        res.push(units[i]);
        i = i + 1;
        assert(res@ =~= units@.take(i as int));
    }
    assert(units@.take(i as int) =~= units@);
    res
}

impl Clone for WorkerNode {
    fn clone(&self) -> (res: WorkerNode)
        ensures
            res@ == self@,
    {
        WorkerNode {
            id: self.id,
            worker_type: self.worker_type,
            host: copy_host(&self.host),
            state: self.state,
            parallel_units: copy_units(&self.parallel_units),
            property: self.property,
            transactional_id: self.transactional_id,
            resource: copy_resource(&self.resource),
            started_at: self.started_at,
        }
    }
}

/// No new actor is to be placed on the worker.
pub open spec fn is_unschedulable(property: Option<Property>) -> bool {
    property matches Some(p) && p.is_unschedulable
}

impl WorkerNode {
    /// Whether no new actor is to be placed on the worker.
    pub fn unschedulable(&self) -> (res: bool)
        ensures
            res == is_unschedulable(self.property),
    {
        match self.property {
            Some(p) => p.is_unschedulable,
            None => false,
        }
    }
}

} // verus!
