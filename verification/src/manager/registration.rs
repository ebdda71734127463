//! How workers join and leave the cluster.
use crate::common::worker::{machine, HostAddress, Machine, Node, ParallelUnit, Property, Resource};
use crate::common::worker::{WorkerNode, WorkerState, WorkerType};
use crate::manager::cluster::{hosts_distinct, id_used, ids_partitioned, inherited, place_of_host};
use crate::manager::cluster::{resized_units, takes_id, ClusterError, ClusterManagerCore};
use crate::manager::cluster::{NeededIds, Rejoined, MAX_WORKER_REUSABLE_ID_COUNT};
use crate::manager::cluster::lemma_place_of_host;
use crate::manager::worker_record::{generate_cn_parallel_units, new_units, Record, Worker};
use crate::common::worker::Endpoint;
use crate::manager::worker_record::{parse_property, property_of, AddNodeProperty, INVALID_EXPIRE_AT};
use vstd::prelude::*;

verus! {

/// The ids without the given one.
pub open spec fn without(free: Seq<u32>, id: u32) -> Seq<u32>
    decreases free.len(),
{
    if free.len() == 0 {
        Seq::empty()
    } else if free.last() == id {
        without(free.drop_last(), id)
    } else {
        without(free.drop_last(), id).push(free.last())
    }
}

proof fn lemma_without(free: Seq<u32>, id: u32)
    requires
        free.no_duplicates(),
    ensures
        without(free, id).no_duplicates(),
        forall|x: u32| #[trigger] without(free, id).contains(x) <==> free.contains(x) && x != id,
    decreases free.len(),
{
    if free.len() > 0 {
        let init = free.drop_last();
        let last = free.last();
        lemma_without(init, id);
        let w = without(init, id);
        let g = without(free, id);
        assert forall|x: u32| #[trigger] g.contains(x) <==> free.contains(x) && x != id by {
            if g.contains(x) {
                let k = choose|k: int| 0 <= k < g.len() && g[k] == x;
                if k < w.len() {
                    assert(w[k] == x);
                    assert(w.contains(x));
                    let j = choose|j: int| 0 <= j < init.len() && init[j] == x;
                    assert(free[j] == x);
                } else {
                    assert(free[free.len() - 1] == x);
                }
            }
            if free.contains(x) && x != id {
                let j = choose|j: int| 0 <= j < free.len() && free[j] == x;
                if j < init.len() {
                    assert(init[j] == x);
                    assert(w.contains(x));
                    let k = choose|k: int| 0 <= k < w.len() && w[k] == x;
                    assert(g[k] == x);
                } else {
                    assert(g[g.len() - 1] == x);
                }
            }
        }
        assert(g.no_duplicates()) by {
            assert forall|a: int, b: int| 0 <= a < g.len() && 0 <= b < g.len() && a != b implies g[a]
                != g[b] by {
                if a < w.len() {
                    assert(w.contains(w[a]));
                    let j = choose|j: int| 0 <= j < init.len() && init[j] == w[a];
                    assert(free[j] == w[a]);
                }
                if b < w.len() {
                    assert(w.contains(w[b]));
                    let j = choose|j: int| 0 <= j < init.len() && init[j] == w[b];
                    assert(free[j] == w[b]);
                }
            }
        }
    }
}

/// The ids after the id of a new worker is taken.
pub open spec fn ids_taken(free: Seq<u32>, id: Option<u32>) -> Seq<u32> {
    match id {
        Some(t) => without(free, t),
        None => free,
    }
}

/// The ids after the id of a worker that is gone is freed.
pub open spec fn ids_freed(free: Seq<u32>, id: Option<u32>) -> Seq<u32> {
    match id {
        Some(t) => free.push(t),
        None => free,
    }
}

proof fn lemma_add_partition(ws: Seq<Record>, free: Seq<u32>, w: Record)
    requires
        ids_partitioned(ws, free),
        w.node.transactional_id matches Some(t) ==> free.contains(t),
    ensures
        ids_partitioned(ws.push(w), ids_taken(free, w.node.transactional_id)),
{
    let ws2 = ws.push(w);
    let free2 = ids_taken(free, w.node.transactional_id);
    if let Some(t) = w.node.transactional_id {
        lemma_without(free, t);
        assert(free.contains(t));
        let kt = choose|k: int| 0 <= k < free.len() && free[k] == t;
        assert(free[kt] == t);
    }
    assert forall|k: int| 0 <= k < free2.len() implies #[trigger] free2[k]
        < MAX_WORKER_REUSABLE_ID_COUNT by {
        assert(free2.contains(free2[k]));
        assert(free.contains(free2[k]));
        let j = choose|j: int| 0 <= j < free.len() && free[j] == free2[k];
        assert(free[j] < MAX_WORKER_REUSABLE_ID_COUNT);
    }
    assert forall|id: u32| id < MAX_WORKER_REUSABLE_ID_COUNT implies #[trigger] free2.contains(id)
        || id_used(ws2, id) by {
        assert(free.contains(id) || id_used(ws, id));
        if w.node.transactional_id == Some(id) {
            assert(ws2[ws.len() as int].node.transactional_id == Some(id));
        } else if id_used(ws, id) {
            let k = choose|k: int|
                0 <= k < ws.len() && (#[trigger] ws[k]).node.transactional_id == Some(id);
            assert(ws2[k].node.transactional_id == Some(id));
        }
    }
    assert forall|a: int, b: int|
        0 <= a < b < ws2.len() && (#[trigger] ws2[a]).node.transactional_id is Some implies ws2[a].node.transactional_id
        != (#[trigger] ws2[b]).node.transactional_id by {
        assert(ws2[a] == ws[a]);
    }
}

proof fn lemma_delete_partition(ws: Seq<Record>, free: Seq<u32>, i: int)
    requires
        ids_partitioned(ws, free),
        0 <= i < ws.len(),
    ensures
        ids_partitioned(ws.remove(i), ids_freed(free, ws[i].node.transactional_id)),
{
    let ws2 = ws.remove(i);
    let t = ws[i].node.transactional_id;
    let free2 = ids_freed(free, t);
    assert forall|a: int| 0 <= a < ws2.len() implies #[trigger] ws2[a] == ws[if a < i {
        a
    } else {
        a + 1
    }] by {}
    assert forall|a: int|
        0 <= a < ws2.len() && (#[trigger] ws2[a]).node.transactional_id is Some implies ws2[a].node.transactional_id->Some_0
        < MAX_WORKER_REUSABLE_ID_COUNT && !free2.contains(
        ws2[a].node.transactional_id->Some_0,
    ) by {
        let b = if a < i { a } else { a + 1 };
        assert(ws2[a] == ws[b]);
        let x = ws[b].node.transactional_id->Some_0;
        assert(!free.contains(x));
        if b < i {
            assert(ws[b].node.transactional_id != ws[i].node.transactional_id);
        } else {
            assert(ws[i].node.transactional_id is Some ==> ws[i].node.transactional_id
                != ws[b].node.transactional_id);
        }
        if free2.contains(x) {
            let k = choose|k: int| 0 <= k < free2.len() && free2[k] == x;
            if k < free.len() {
                assert(free[k] == x);
            }
        }
    }
    assert forall|id: u32| id < MAX_WORKER_REUSABLE_ID_COUNT implies #[trigger] free2.contains(id)
        || id_used(ws2, id) by {
        assert(free.contains(id) || id_used(ws, id));
        if free.contains(id) {
            let k = choose|k: int| 0 <= k < free.len() && free[k] == id;
            assert(free2[k] == id);
        } else {
            let k = choose|k: int|
                0 <= k < ws.len() && (#[trigger] ws[k]).node.transactional_id == Some(id);
            if k == i {
                assert(free2[free.len() as int] == id);
            } else {
                let a = if k < i { k } else { k - 1 };
                assert(ws2[a].node.transactional_id == Some(id));
            }
        }
    }
    assert(free2.no_duplicates()) by {
        if let Some(x) = t {
            assert(ws[i].node.transactional_id is Some);
            assert(!free.contains(x));
            assert forall|a: int, b: int|
                0 <= a < free2.len() && 0 <= b < free2.len() && a != b implies free2[a]
                != free2[b] by {
                if a < free.len() {
                    assert(free.contains(free[a]));
                }
                if b < free.len() {
                    assert(free.contains(free[b]));
                }
            }
        }
    }
    assert forall|a: int, b: int|
        0 <= a < b < ws2.len() && (#[trigger] ws2[a]).node.transactional_id is Some implies ws2[a].node.transactional_id
        != (#[trigger] ws2[b]).node.transactional_id by {
        let a2 = if a < i { a } else { a + 1 };
        let b2 = if b < i { b } else { b + 1 };
        assert(ws2[a] == ws[a2] && ws2[b] == ws[b2]);
        assert(ws[a2].node.transactional_id != ws[b2].node.transactional_id);
    }
}

/// The parallelism fits in an id.
pub open spec fn units_fit(start_id: u32, count: int) -> bool {
    start_id + count <= u32::MAX
}

/// The first free id, for a worker of a kind that has one.
pub open spec fn first_free(free: Seq<u32>, worker_type: WorkerType) -> Option<u32> {
    if takes_id(worker_type) {
        Some(free[0])
    } else {
        None
    }
}

/// The record of a new worker.
pub open spec fn new_record(
    worker_type: WorkerType,
    host: Endpoint,
    property: Option<Property>,
    parallelism: nat,
    resource: Machine,
    now: u64,
    worker_id: u32,
    start_id: u32,
    free: Seq<u32>,
) -> Record {
    Record {
        node: Node {
            id: worker_id,
            worker_type,
            host: Some(host),
            state: WorkerState::Starting,
            parallel_units: if worker_type == WorkerType::ComputeNode {
                new_units(start_id, parallelism, worker_id)
            } else {
                Seq::empty()
            },
            property,
            transactional_id: first_free(free, worker_type),
            resource: None,
            started_at: None,
        },
        expire_at: INVALID_EXPIRE_AT,
        started_at: Some(now),
        resource: Some(resource),
        info: Seq::empty(),
    }
}

/// What has to be stored and entered when a worker registers.
#[derive(Debug)]
pub enum Registration {
    /// Nothing.
    Unchanged(WorkerNode),
    /// A worker that was known takes the place of what was known of it.
    Update(Worker),
    /// A new worker.
    Insert(Worker),
}

/// A worker whose state changes to running.
#[derive(Debug)]
pub struct Activation {
    /// The worker, running.
    pub worker: Worker,
    /// It was not running before, and is to be stored and updated.
    pub changed: bool,
    /// The frontends have to know of it.
    pub notify_frontend: bool,
}

/// How many new parallel units a worker gets that registers.
pub open spec fn added_units(
    ws: Seq<Record>,
    worker_type: WorkerType,
    host: Endpoint,
    parallelism: int,
) -> int {
    match place_of_host(ws, host) {
        Some(i) => if ws[i].node.parallel_units.len() < parallelism {
            parallelism - ws[i].node.parallel_units.len()
        } else {
            0
        },
        None => if worker_type == WorkerType::ComputeNode {
            parallelism
        } else {
            0
        },
    }
}

impl ClusterManagerCore {
    /// What the registration of a worker needs from the id generator.
    pub fn needed_ids(&self, worker_type: WorkerType, host: &HostAddress, parallelism: usize) -> (res:
        NeededIds)
        ensures
            res.worker_id == (place_of_host(self@, host@) is None),
            res.parallel_units == added_units(self@, worker_type, host@, parallelism as int),
    {
        match self.find_by_host(host) {
            Some(i) => {
                assert(self@[i as int] == self.workers@[i as int]@);
                let before: usize = self.workers[i].worker_node.parallel_units.len();
                let parallel_units: usize = if before < parallelism {
                    parallelism - before
                } else {
                    0
                };
                NeededIds { worker_id: false, parallel_units }
            },
            None => {
                let parallel_units: usize = if worker_type == WorkerType::ComputeNode {
                    parallelism
                } else {
                    0
                };
                NeededIds { worker_id: true, parallel_units }
            },
        }
    }

    /// A worker that is known registers again. Its machine, start time and, if nothing else changes,
    /// its time to expire are updated. If its parallelism or use changes, the changed worker is
    /// returned.
    pub fn rejoin(
        &mut self,
        i: usize,
        property: Option<Property>,
        parallelism: usize,
        resource: Resource,
        now: u64,
        expire_at: u64,
        start_id: u32,
        keep_surplus: bool,
    ) -> (res: Rejoined)
        requires
            old(self).wf(),
            i < old(self)@.len(),
            units_fit(start_id, parallelism - old(self)@[i as int].node.parallel_units.len()),
        ensures
            final(self).wf(),
            final(self).available_transactional_ids == old(self).available_transactional_ids,
            final(self).started_at == old(self).started_at,
            ({
                let w = old(self)@[i as int];
                let p = inherited(property, w.node.property);
                let seen = Record {
                    resource: Some(resource@),
                    started_at: Some(now),
                    ..w
                };
                if w.node.parallel_units.len() == parallelism && w.node.property == p {
                    &&& res matches Rejoined::Unchanged(node) && node@ == w.node
                    &&& final(self)@ == old(self)@.update(i as int, Record { expire_at, ..seen })
                } else {
                    &&& res matches Rejoined::Changed(worker) && worker@ == (Record {
                        node: Node {
                            parallel_units: resized_units(
                                w.node.parallel_units,
                                parallelism as nat,
                                start_id,
                                w.node.id,
                                keep_surplus,
                            ),
                            property: p,
                            ..w.node
                        },
                        expire_at,
                        ..seen
                    })
                    &&& final(self)@ == old(self)@.update(i as int, seen)
                }
            }),
    {
        let ghost ws = self@;
        let ghost w = ws[i as int];
        assert(w == self.workers@[i as int]@);
        let before = self.workers[i].worker_node.property;
        let property = match property {
            Some(p) => Some(
                Property {
                    is_streaming: p.is_streaming,
                    is_serving: p.is_serving,
                    is_unschedulable: match before {
                        Some(b) => b.is_unschedulable,
                        None => false,
                    },
                },
            ),
            None => None,
        };
        let same_property: bool = match (before, property) {
            (Some(a), Some(b)) => a.is_streaming == b.is_streaming && a.is_serving == b.is_serving
                && a.is_unschedulable == b.is_unschedulable,
            (None, None) => true,
            _ => false,
        };
        assert(same_property == (w.node.property == property));
        let old_parallelism: usize = self.workers[i].worker_node.parallel_units.len();
        let ghost m = resource@;
        let worker = &mut self.workers[i];
        worker.resource = Some(resource);
        worker.started_at = Some(now);
        if old_parallelism == parallelism && same_property {
            worker.expire_at = expire_at;
            let node = worker.worker_node.clone();
            proof {
                let seen = Record { resource: Some(m), started_at: Some(now), expire_at, ..w };
                assert(self@ =~= ws.update(i as int, seen));
                lemma_same_hosts_ids(ws, self@, self.available_transactional_ids@);
            }
            return Rejoined::Unchanged(node);
        }
        let mut new_worker = worker.clone();
        proof {
            let seen = Record { resource: Some(m), started_at: Some(now), ..w };
            assert(self@ =~= ws.update(i as int, seen));
            lemma_same_hosts_ids(ws, self@, self.available_transactional_ids@);
        }
        if old_parallelism < parallelism {
            let mut units = generate_cn_parallel_units(
                start_id,
                parallelism - old_parallelism,
                new_worker.worker_node.id,
            );
            new_worker.worker_node.parallel_units.append(&mut units);
        } else if old_parallelism > parallelism && !keep_surplus {
            new_worker.worker_node.parallel_units.truncate(parallelism);
        }
        assert(new_worker.worker_node.parallel_units@ =~= resized_units(
            w.node.parallel_units,
            parallelism as nat,
            start_id,
            w.node.id,
            keep_surplus,
        ));
        new_worker.worker_node.property = property;
        new_worker.expire_at = expire_at;
        Rejoined::Changed(new_worker)
    }

    /// Makes the record of a new worker. It fails if no transactional id is free, whatever the kind of
    /// the worker; compute nodes and frontends get the first free one.
    pub fn new_worker(
        &self,
        worker_type: WorkerType,
        host_address: HostAddress,
        property: Option<Property>,
        parallelism: usize,
        resource: Resource,
        now: u64,
        worker_id: u32,
        start_id: u32,
    ) -> (res: Result<Worker, ClusterError>)
        requires
            worker_type == WorkerType::ComputeNode && self.available_transactional_ids@.len() > 0
                ==> units_fit(start_id, parallelism as int),
        ensures
            if self.available_transactional_ids@.len() == 0 {
                res == Err::<Worker, ClusterError>(ClusterError::NoReusableId)
            } else {
                res matches Ok(worker) && worker@ == new_record(
                    worker_type,
                    host_address@,
                    property,
                    parallelism as nat,
                    resource@,
                    now,
                    worker_id,
                    start_id,
                    self.available_transactional_ids@,
                )
            },
    {
        if self.available_transactional_ids.len() == 0 {
            return Err(ClusterError::NoReusableId);
        }
        let transactional_id: Option<u32> = match worker_type {
            WorkerType::ComputeNode | WorkerType::Frontend => Some(
                self.available_transactional_ids[0],
            ),
            _ => None,
        };
        let parallel_units = if worker_type == WorkerType::ComputeNode {
            generate_cn_parallel_units(start_id, parallelism, worker_id)
        } else {
            let none: Vec<ParallelUnit> = Vec::new();
            assert(none@ =~= Seq::<ParallelUnit>::empty());
            none
        };
        let worker_node = WorkerNode {
            id: worker_id,
            worker_type,
            host: Some(host_address),
            state: WorkerState::Starting,
            parallel_units,
            property,
            transactional_id,
            resource: None,
            started_at: None,
        };
        let mut worker = Worker::from_node(worker_node);
        worker.started_at = Some(now);
        worker.resource = Some(resource);
        Ok(worker)
    }

    /// A worker registers: one that is known rejoins, and any other gets a record of its own. What is
    /// returned has to be stored and entered, unless nothing changed. The new ids are used as far as they
    /// are needed.
    pub fn register(
        &mut self,
        worker_type: WorkerType,
        host_address: HostAddress,
        added: AddNodeProperty,
        resource: Resource,
        now: u64,
        expire_at: u64,
        worker_id: u32,
        start_id: u32,
        keep_surplus: bool,
    ) -> (res: Result<Registration, ClusterError>)
        requires
            old(self).wf(),
            place_of_host(old(self)@, host_address@) is Some
                || old(self).available_transactional_ids@.len() > 0 ==> units_fit(
                start_id,
                added_units(
                    old(self)@,
                    worker_type,
                    host_address@,
                    added.worker_node_parallelism as usize as int,
                ),
            ),
        ensures
            final(self).wf(),
            final(self).available_transactional_ids == old(self).available_transactional_ids,
            final(self).started_at == old(self).started_at,
            final(self)@.len() == old(self)@.len(),
            ({
                let parallelism = added.worker_node_parallelism as usize;
                let property = property_of(worker_type, added);
                match place_of_host(old(self)@, host_address@) {
                    Some(i) => {
                        let w = old(self)@[i];
                        let p = inherited(property, w.node.property);
                        let seen = Record {
                            resource: Some(resource@),
                            started_at: Some(now),
                            ..w
                        };
                        if w.node.parallel_units.len() == parallelism && w.node.property == p {
                            &&& res matches Ok(Registration::Unchanged(node)) && node@ == w.node
                            &&& final(self)@ == old(self)@.update(i, Record { expire_at, ..seen })
                        } else {
                            &&& res matches Ok(Registration::Update(worker)) && worker@ == (Record {
                                node: Node {
                                    parallel_units: resized_units(
                                        w.node.parallel_units,
                                        parallelism as nat,
                                        start_id,
                                        w.node.id,
                                        keep_surplus,
                                    ),
                                    property: p,
                                    ..w.node
                                },
                                expire_at,
                                ..seen
                            })
                            &&& final(self)@ == old(self)@.update(i, seen)
                        }
                    },
                    None => {
                        &&& final(self)@ == old(self)@
                        &&& if old(self).available_transactional_ids@.len() == 0 {
                            res matches Err(ClusterError::NoReusableId)
                        } else {
                            res matches Ok(Registration::Insert(worker)) && worker@
                                == new_record(
                                worker_type,
                                host_address@,
                                property,
                                parallelism as nat,
                                resource@,
                                now,
                                worker_id,
                                start_id,
                                old(self).available_transactional_ids@,
                            )
                        }
                    },
                }
            }),
            res matches Ok(registration) ==> final(self).can_enter(registration),
    {
        let parallelism: usize = added.worker_node_parallelism as usize;
        let property = parse_property(worker_type, added);
        proof {
            lemma_place_of_host(self@, host_address@);
        }
        match self.find_by_host(&host_address) {
            Some(i) => {
                let ghost before = self@;
                match self.rejoin(
                    i,
                    property,
                    parallelism,
                    resource,
                    now,
                    expire_at,
                    start_id,
                    keep_surplus,
                ) {
                    Rejoined::Unchanged(node) => Ok(Registration::Unchanged(node)),
                    Rejoined::Changed(worker) => {
                        proof {
                            lemma_place_of_host(self@, host_address@);
                            let j = place_of_host(self@, host_address@);
                            assert(self@[i as int].node.host == Some(host_address@));
                            if j is None {
                                assert(false);
                            }
                        }
                        Ok(Registration::Update(worker))
                    },
                }
            },
            None => match self.new_worker(
                worker_type,
                host_address,
                property,
                parallelism,
                resource,
                now,
                worker_id,
                start_id,
            ) {
                Ok(worker) => {
                    proof {
                        if takes_id(worker_type) {
                            assert(self.available_transactional_ids@[0]
                                == worker@.node.transactional_id->Some_0);
                        }
                    }
                    Ok(Registration::Insert(worker))
                },
                Err(e) => Err(e),
            },
        }
    }

    /// What a worker has registered can be entered.
    pub open spec fn can_enter(&self, registration: Registration) -> bool {
        match registration {
            Registration::Unchanged(_) => true,
            Registration::Update(worker) => worker@.node.host matches Some(host) && (place_of_host(
                self@,
                host,
            ) matches Some(i) && self@[i].node.transactional_id == worker@.node.transactional_id),
            Registration::Insert(worker) => worker@.node.host matches Some(host) && place_of_host(
                self@,
                host,
            ) is None && (worker@.node.transactional_id matches Some(t)
                ==> self.available_transactional_ids@.contains(t)),
        }
    }

    /// Enters what a worker has registered, once it is stored.
    pub fn enter(&mut self, registration: Registration) -> (res: WorkerNode)
        requires
            old(self).wf(),
            old(self).can_enter(registration),
        ensures
            final(self).wf(),
            final(self).started_at == old(self).started_at,
            match registration {
                Registration::Unchanged(node) => {
                    &&& res == node
                    &&& final(self)@ == old(self)@
                    &&& final(self).available_transactional_ids == old(self).available_transactional_ids
                },
                Registration::Update(worker) => {
                    &&& res@ == worker@.node
                    &&& final(self)@ == old(self)@.update(
                        place_of_host(old(self)@, worker@.node.host->Some_0)->Some_0,
                        worker@,
                    )
                    &&& final(self).available_transactional_ids == old(self).available_transactional_ids
                },
                Registration::Insert(worker) => {
                    &&& res@ == worker@.node
                    &&& final(self)@ == old(self)@.push(worker@)
                    &&& final(self).available_transactional_ids@ == ids_taken(
                        old(self).available_transactional_ids@,
                        worker@.node.transactional_id,
                    )
                },
            },
    {
        match registration {
            Registration::Unchanged(node) => node,
            Registration::Update(worker) => {
                let node = worker.worker_node.clone();
                self.update_worker_node(worker);
                node
            },
            Registration::Insert(worker) => {
                let node = worker.worker_node.clone();
                self.add_worker_node(worker);
                node
            },
        }
    }

    /// Adds a worker with a new address, and takes its transactional id.
    pub fn add_worker_node(&mut self, worker: Worker)
        requires
            old(self).wf(),
            worker@.node.host matches Some(host) && place_of_host(old(self)@, host) is None,
            worker@.node.transactional_id matches Some(t) ==> old(self).available_transactional_ids@.contains(t),
        ensures
            final(self).wf(),
            final(self)@ == old(self)@.push(worker@),
            final(self).available_transactional_ids@ == ids_taken(
                old(self).available_transactional_ids@,
                worker@.node.transactional_id,
            ),
            final(self).started_at == old(self).started_at,
    {
        let ghost ws = self@;
        let ghost free = self.available_transactional_ids@;
        let ghost w = worker@;
        proof {
            lemma_add_partition(ws, free, w);
            lemma_place_of_host(ws, w.node.host->Some_0);
        }
        if let Some(id) = worker.worker_node.transactional_id {
            let mut kept: Vec<u32> = Vec::new();
            let mut i: usize = 0;
            assert(free.take(0) =~= Seq::<u32>::empty());
            while i < self.available_transactional_ids.len()
                invariant
                    i <= self.available_transactional_ids.len(),
                    self.available_transactional_ids@ == free,
                    kept@ == without(free.take(i as int), id),
                decreases self.available_transactional_ids.len() - i,
            {
                assert(free.take(i + 1).drop_last() =~= free.take(i as int));
                assert(free.take(i + 1).last() == free[i as int]);
                if self.available_transactional_ids[i] != id {
                    kept.push(self.available_transactional_ids[i]);
                }
                i = i + 1;
            }
            assert(free.take(i as int) =~= free);
            self.available_transactional_ids = kept;
        }
        self.workers.push(worker);
        assert(self@ =~= ws.push(w));
    }

    /// Replaces the record of the worker with the same address.
    pub fn update_worker_node(&mut self, worker: Worker)
        requires
            old(self).wf(),
            worker@.node.host matches Some(host) && place_of_host(old(self)@, host) matches Some(i)
                && old(self)@[i].node.transactional_id == worker@.node.transactional_id,
        ensures
            final(self).wf(),
            final(self)@ == old(self)@.update(
                place_of_host(old(self)@, worker@.node.host->Some_0)->Some_0,
                worker@,
            ),
            final(self).available_transactional_ids == old(self).available_transactional_ids,
            final(self).started_at == old(self).started_at,
    {
        let ghost ws = self@;
        let ghost w = worker@;
        proof {
            lemma_place_of_host(ws, w.node.host->Some_0);
        }
        let place: Option<usize> = match &worker.worker_node.host {
            Some(host) => self.find_by_host(host),
            None => None,
        };
        let i: usize = place.unwrap();
        self.workers.set(i, worker);
        proof {
            assert(self@ =~= ws.update(i as int, w));
            lemma_same_hosts_ids(ws, self@, self.available_transactional_ids@);
        }
    }

    /// Removes the worker with the given address, which has to exist, and frees its transactional id.
    pub fn delete_worker_node(&mut self, host_address: &HostAddress) -> (res: Result<
        Worker,
        ClusterError,
    >)
        requires
            old(self).wf(),
        ensures
            final(self).wf(),
            final(self).started_at == old(self).started_at,
            match res {
                Ok(worker) => {
                    &&& place_of_host(old(self)@, host_address@) matches Some(i) && worker@ == old(self)@[i] && final(self)@ == old(self)@.remove(i)
                    &&& final(self).available_transactional_ids@ == ids_freed(
                        old(self).available_transactional_ids@,
                        worker@.node.transactional_id,
                    )
                },
                Err(e) => {
                    &&& place_of_host(old(self)@, host_address@) is None
                    &&& e == ClusterError::WorkerNotExist
                    &&& final(self)@ == old(self)@
                    &&& final(self).available_transactional_ids == old(self).available_transactional_ids
                },
            },
    {
        let ghost ws = self@;
        let ghost free = self.available_transactional_ids@;
        let i: usize = match self.find_by_host(host_address) {
            Some(i) => i,
            None => {
                return Err(ClusterError::WorkerNotExist);
            },
        };
        proof {
            lemma_delete_partition(ws, free, i as int);
        }
        let worker = self.workers.remove(i);
        if let Some(id) = worker.worker_node.transactional_id {
            self.available_transactional_ids.push(id);
        }
        proof {
            assert(self@ =~= ws.remove(i as int));
            let r = self@;
            assert forall|a: int| 0 <= a < r.len() implies #[trigger] r[a] == ws[if a < i {
                a
            } else {
                a + 1
            }] by {}
            assert forall|a: int, b: int| 0 <= a < b < r.len() implies (#[trigger] r[a]).node.host
                != (#[trigger] r[b]).node.host by {
                let a2 = if a < i { a } else { a + 1 };
                let b2 = if b < i { b } else { b + 1 };
                assert(r[a] == ws[a2] && r[b] == ws[b2]);
            }
        }
        Ok(worker)
    }

    /// The worker with the given address, running.
    pub fn activate_worker_node(&self, host_address: &HostAddress) -> (res: Result<
        Activation,
        ClusterError,
    >)
        ensures
            match res {
                Ok(a) => place_of_host(self@, host_address@) matches Some(i) && a.worker@ == (
                Record {
                    node: Node { state: WorkerState::Running, ..self@[i].node },
                    ..self@[i]
                }) && a.changed == (self@[i].node.state != WorkerState::Running)
                    && a.notify_frontend == (self@[i].node.worker_type
                    == WorkerType::ComputeNode),
                Err(e) => place_of_host(self@, host_address@) is None && e
                    == ClusterError::WorkerNotExist,
            },
    {
        let found = match self.get_worker_by_host_checked(host_address) {
            Ok(w) => w,
            Err(e) => {
                return Err(e);
            },
        };
        let mut worker = found.clone();
        let changed: bool = worker.worker_node.state != WorkerState::Running;
        worker.worker_node.state = WorkerState::Running;
        let notify_frontend: bool = worker.worker_node.worker_type == WorkerType::ComputeNode;
        Ok(Activation { worker, changed, notify_frontend })
    }
}

/// Records that keep addresses and transactional ids keep the order of the cluster.
pub proof fn lemma_same_hosts_ids(before: Seq<Record>, after: Seq<Record>, free: Seq<u32>)
    requires
        hosts_distinct(before),
        ids_partitioned(before, free),
        after.len() == before.len(),
        forall|i: int|
            0 <= i < before.len() ==> (#[trigger] after[i]).node.host == before[i].node.host
                && after[i].node.transactional_id == before[i].node.transactional_id,
    ensures
        hosts_distinct(after),
        ids_partitioned(after, free),
{
    assert forall|id: u32| id < MAX_WORKER_REUSABLE_ID_COUNT implies #[trigger] free.contains(id)
        || id_used(after, id) by {
        if !free.contains(id) {
            let k = choose|k: int|
                0 <= k < before.len() && (#[trigger] before[k]).node.transactional_id == Some(id);
            assert(after[k].node.transactional_id == Some(id));
        }
    }
    assert forall|i: int, j: int| 0 <= i < j < after.len() implies (#[trigger] after[i]).node.host
        != (#[trigger] after[j]).node.host by {
        assert(before[i].node.host != before[j].node.host);
    }
    assert forall|i: int, j: int|
        0 <= i < j < after.len() && (#[trigger] after[i]).node.transactional_id is Some implies after[i].node.transactional_id
        != (#[trigger] after[j]).node.transactional_id by {
        assert(before[i].node.transactional_id != before[j].node.transactional_id);
    }
}

/// The id of a worker that leaves is used again, and after all ids that were free when it left: a worker
/// that takes the first free id takes one of the others, unless there is none.
pub proof fn lemma_freed_id_last(free: Seq<u32>, id: u32)
    requires
        free.no_duplicates(),
        !free.contains(id),
    ensures
        ids_freed(free, Some(id)).last() == id,
        free.len() > 0 ==> first_free(ids_freed(free, Some(id)), WorkerType::ComputeNode)
            == first_free(free, WorkerType::ComputeNode),
        free.len() == 0 ==> first_free(ids_freed(free, Some(id)), WorkerType::ComputeNode) == Some(
            id,
        ),
{
}

} // verus!
