//! The workers of the cluster: how they join, are listed, expire and leave.
use crate::common::worker::{is_unschedulable, Endpoint, HostAddress, Node, ParallelUnit};
use crate::common::worker::{Property, WorkerNode, WorkerType};
use crate::manager::worker_record::new_units;
use crate::manager::worker_record::{Record, Worker};
use std::collections::BTreeSet;
use vstd::prelude::*;

verus! {

broadcast use {
    vstd::std_specs::btree::group_btree_axioms,
    vstd::laws_cmp::group_laws_cmp,
};

/// How many ids there are for workers to use again.
pub const MAX_WORKER_REUSABLE_ID_COUNT: u32 = 1024;

/// Why a request about workers is refused.
#[derive(Clone, Copy, Debug, PartialEq, Eq, Structural)]
pub enum ClusterError {
    /// There is no id left for a new worker.
    NoReusableId,
    /// There is no id left for a worker that is stored without one.
    NoTransactionalId,
    /// No worker has the address.
    WorkerNotExist,
    /// No worker has the id.
    InvalidWorker { worker_id: u32 },
}

/// The records of the workers.
pub open spec fn records(workers: Seq<Worker>) -> Seq<Record> {
    Seq::new(workers.len(), |i: int| workers[i]@)
}

/// Every worker has an address, and no two have the same.
pub open spec fn hosts_distinct(ws: Seq<Record>) -> bool {
    &&& forall|i: int| 0 <= i < ws.len() ==> (#[trigger] ws[i]).node.host is Some
    &&& forall|i: int, j: int|
        0 <= i < j < ws.len() ==> (#[trigger] ws[i]).node.host != (#[trigger] ws[j]).node.host
}

/// Some worker has the transactional id.
pub open spec fn id_used(ws: Seq<Record>, id: u32) -> bool {
    exists|i: int| 0 <= i < ws.len() && (#[trigger] ws[i]).node.transactional_id == Some(id)
}

/// Every transactional id is either free or used by one worker.
pub open spec fn ids_partitioned(ws: Seq<Record>, free: Seq<u32>) -> bool {
    &&& free.no_duplicates()
    &&& forall|k: int| 0 <= k < free.len() ==> #[trigger] free[k] < MAX_WORKER_REUSABLE_ID_COUNT
    &&& forall|i: int|
        0 <= i < ws.len() && (#[trigger] ws[i]).node.transactional_id is Some
            ==> ws[i].node.transactional_id->Some_0 < MAX_WORKER_REUSABLE_ID_COUNT
            && !free.contains(ws[i].node.transactional_id->Some_0)
    &&& forall|i: int, j: int|
        0 <= i < j < ws.len() && (#[trigger] ws[i]).node.transactional_id is Some
            ==> ws[i].node.transactional_id != (#[trigger] ws[j]).node.transactional_id
    &&& forall|id: u32|
        id < MAX_WORKER_REUSABLE_ID_COUNT ==> #[trigger] free.contains(id) || id_used(ws, id)
}

/// The place of the worker with the given address.
pub open spec fn place_of_host(ws: Seq<Record>, host: Endpoint) -> Option<int>
    decreases ws.len(),
{
    if ws.len() == 0 {
        None
    } else if ws.last().node.host == Some(host) {
        Some(ws.len() - 1)
    } else {
        place_of_host(ws.drop_last(), host)
    }
}

pub proof fn lemma_place_of_host(ws: Seq<Record>, host: Endpoint)
    ensures
        match place_of_host(ws, host) {
            Some(i) => 0 <= i < ws.len() && ws[i].node.host == Some(host),
            None => forall|i: int|
                0 <= i < ws.len() ==> (#[trigger] ws[i]).node.host != Some(host),
        },
    decreases ws.len(),
{
    if ws.len() > 0 && ws.last().node.host != Some(host) {
        lemma_place_of_host(ws.drop_last(), host);
        if place_of_host(ws.drop_last(), host) is None {
            assert forall|i: int| 0 <= i < ws.len() implies (#[trigger] ws[i]).node.host != Some(
                host,
            ) by {
                if i < ws.len() - 1 {
                    assert(ws.drop_last()[i] == ws[i]);
                }
            }
        }
    }
}

/// The place of the first worker with the given id.
pub open spec fn place_of_id(ws: Seq<Record>, id: u32) -> Option<int>
    decreases ws.len(),
{
    if ws.len() == 0 {
        None
    } else {
        match place_of_id(ws.drop_last(), id) {
            Some(i) => Some(i),
            None => if ws.last().node.id == id {
                Some(ws.len() - 1)
            } else {
                None
            },
        }
    }
}

/// The worker is of a kind that has a transactional id.
pub open spec fn takes_id(worker_type: WorkerType) -> bool {
    worker_type == WorkerType::ComputeNode || worker_type == WorkerType::Frontend
}

/// The worker is stored without the transactional id that it should have.
pub open spec fn lacks_id(node: Node) -> bool {
    node.transactional_id is None && takes_id(node.worker_type)
}

/// How many workers lack a transactional id.
pub open spec fn lacking(ws: Seq<Record>) -> nat
    decreases ws.len(),
{
    if ws.len() == 0 {
        0
    } else {
        lacking(ws.drop_last()) + if lacks_id(ws.last().node) {
            1nat
        } else {
            0nat
        }
    }
}

/// The workers after those that lack a transactional id have been given the free ones in order.
pub open spec fn with_ids(ws: Seq<Record>, free: Seq<u32>) -> Seq<Record>
    decreases ws.len(),
{
    if ws.len() == 0 {
        Seq::empty()
    } else {
        let before = with_ids(ws.drop_last(), free);
        let w = ws.last();
        if lacks_id(w.node) {
            before.push(
                Record {
                    node: Node {
                        transactional_id: Some(free[lacking(ws.drop_last()) as int]),
                        ..w.node
                    },
                    ..w
                },
            )
        } else {
            before.push(w)
        }
    }
}

/// The ids below a bound that no worker uses.
pub open spec fn free_ids(ws: Seq<Record>, n: nat) -> Seq<u32>
    decreases n,
{
    if n == 0 {
        Seq::empty()
    } else {
        let before = free_ids(ws, (n - 1) as nat);
        if id_used(ws, (n - 1) as u32) {
            before
        } else {
            before.push((n - 1) as u32)
        }
    }
}

/// What a registration needs from the id generator.
#[derive(Clone, Copy, Debug, PartialEq, Eq, Structural)]
pub struct NeededIds {
    /// An id for a new worker.
    pub worker_id: bool,
    /// How many parallel units.
    pub parallel_units: usize,
}

/// What comes of a worker that registers again.
#[derive(Debug)]
pub enum Rejoined {
    /// It is as before.
    Unchanged(WorkerNode),
    /// It is to be stored like this, and then updated.
    Changed(Worker),
}

/// The property of a worker that registers again: whether it is schedulable stays as it was.
pub open spec fn inherited(property: Option<Property>, before: Option<Property>) -> Option<Property> {
    match property {
        Some(p) => Some(Property { is_unschedulable: is_unschedulable(before), ..p }),
        None => None,
    }
}

/// The parallel units of a worker that registers again with another parallelism: new ones are added;
/// surplus ones are dropped, unless the parallelism of jobs is not controlled automatically.
pub open spec fn resized_units(
    units: Seq<ParallelUnit>,
    parallelism: nat,
    start_id: u32,
    worker_id: u32,
    keep_surplus: bool,
) -> Seq<ParallelUnit> {
    if units.len() < parallelism {
        units + new_units(start_id, (parallelism - units.len()) as nat, worker_id)
    } else if units.len() > parallelism && !keep_surplus {
        units.take(parallelism as int)
    } else {
        units
    }
}

/// The workers of the cluster.
#[derive(Debug)]
pub struct ClusterManagerCore {
    pub workers: Vec<Worker>,
    /// The transactional ids that are free; the one that was freed last is used last.
    pub available_transactional_ids: Vec<u32>,
    /// When the meta node started.
    pub started_at: u64,
}

proof fn lemma_free_ids(ws: Seq<Record>, n: nat)
    requires
        n <= MAX_WORKER_REUSABLE_ID_COUNT,
    ensures
        free_ids(ws, n).no_duplicates(),
        forall|id: u32| #[trigger]
            free_ids(ws, n).contains(id) <==> id < n && !id_used(ws, id),
    decreases n,
{
    if n > 0 {
        let m = (n - 1) as nat;
        lemma_free_ids(ws, m);
        let f = free_ids(ws, m);
        assert forall|id: u32| #[trigger] free_ids(ws, n).contains(id) <==> id < n && !id_used(
            ws,
            id,
        ) by {
            let g = free_ids(ws, n);
            if g.contains(id) {
                let k = choose|k: int| 0 <= k < g.len() && g[k] == id;
                if k < f.len() {
                    assert(f[k] == id);
                    assert(f.contains(id));
                }
            }
            if id < n && !id_used(ws, id) {
                if id < m {
                    assert(f.contains(id));
                    let k = choose|k: int| 0 <= k < f.len() && f[k] == id;
                    assert(g[k] == id);
                } else {
                    assert(g[g.len() - 1] == id);
                }
            }
        }
        assert(!f.contains(m as u32));
        assert(free_ids(ws, n).no_duplicates()) by {
            let g = free_ids(ws, n);
            assert forall|a: int, b: int| 0 <= a < g.len() && 0 <= b < g.len() && a != b implies g[a]
                != g[b] by {
                if a < f.len() {
                    assert(f.contains(f[a]));
                }
                if b < f.len() {
                    assert(f.contains(f[b]));
                }
            }
        }
    }
}

/// The stored ids are ids, and no two workers have the same.
pub open spec fn stored_ids_valid(ws: Seq<Record>) -> bool {
    &&& forall|i: int|
        0 <= i < ws.len() && (#[trigger] ws[i]).node.transactional_id is Some
            ==> ws[i].node.transactional_id->Some_0 < MAX_WORKER_REUSABLE_ID_COUNT
    &&& forall|i: int, j: int|
        0 <= i < j < ws.len() && (#[trigger] ws[i]).node.transactional_id is Some
            ==> ws[i].node.transactional_id != (#[trigger] ws[j]).node.transactional_id
}

/// One worker takes the first free id, and the ids stay partitioned.
proof fn lemma_take_id(ws: Seq<Record>, free: Seq<u32>, i: int, w: Record)
    requires
        ids_partitioned(ws, free),
        0 <= i < ws.len(),
        ws[i].node.transactional_id is None,
        free.len() > 0,
        w.node.transactional_id == Some(free[0]),
    ensures
        ids_partitioned(ws.update(i, w), free.skip(1)),
{
    let ws2 = ws.update(i, w);
    let free2 = free.skip(1);
    assert forall|k: int| 0 <= k < free2.len() implies #[trigger] free2[k] == free[k + 1] by {}
    assert(free.contains(free[0]));
    assert forall|id: u32| #[trigger] free2.contains(id) implies free.contains(id) && id
        != free[0] by {
        let k = choose|k: int| 0 <= k < free2.len() && free2[k] == id;
        assert(free[k + 1] == id);
    }
    assert forall|id: u32| id < MAX_WORKER_REUSABLE_ID_COUNT implies #[trigger] free2.contains(id)
        || id_used(ws2, id) by {
        if free.contains(id) {
            let k = choose|k: int| 0 <= k < free.len() && free[k] == id;
            if k == 0 {
                assert(ws2[i].node.transactional_id == Some(id));
            } else {
                assert(free2[k - 1] == id);
            }
        } else {
            let k = choose|k: int|
                0 <= k < ws.len() && (#[trigger] ws[k]).node.transactional_id == Some(id);
            assert(ws2[k].node.transactional_id == Some(id));
        }
    }
    assert forall|a: int, b: int|
        0 <= a < b < ws2.len() && (#[trigger] ws2[a]).node.transactional_id is Some implies ws2[a].node.transactional_id
        != (#[trigger] ws2[b]).node.transactional_id by {
        assert(ws[a].node.transactional_id is Some || a == i);
        assert(ws[b].node.transactional_id is Some || b == i || ws[b].node.transactional_id is None);
    }
}

impl ClusterManagerCore {
    /// The records of the workers.
    pub open spec fn view(&self) -> Seq<Record> {
        records(self.workers@)
    }

    /// Every worker has an address of its own, and every transactional id is free or used once.
    pub open spec fn wf(&self) -> bool {
        &&& hosts_distinct(self@)
        &&& ids_partitioned(self@, self.available_transactional_ids@)
    }

    /// The workers that are stored. Compute nodes and frontends that are stored without a
    /// transactional id are given one.
    pub fn new(stored: Vec<Worker>, started_at: u64) -> (res: Result<
        ClusterManagerCore,
        ClusterError,
    >)
        requires
            hosts_distinct(records(stored@)),
            stored_ids_valid(records(stored@)),
        ensures
            ({
                let ws = records(stored@);
                let free = free_ids(ws, MAX_WORKER_REUSABLE_ID_COUNT as nat);
                match res {
                    Ok(core) => {
                        &&& lacking(ws) <= free.len()
                        &&& core.wf()
                        &&& core@ == with_ids(ws, free)
                        &&& core.available_transactional_ids@ == free.skip(lacking(ws) as int)
                        &&& core.started_at == started_at
                    },
                    Err(e) => lacking(ws) > free.len() && e == ClusterError::NoTransactionalId,
                }
            }),
    {
        let ghost ws = records(stored@);
        let ghost free = free_ids(ws, MAX_WORKER_REUSABLE_ID_COUNT as nat);
        let mut used: BTreeSet<u32> = BTreeSet::new();
        let mut i: usize = 0;
        while i < stored.len()
            invariant
                i <= stored.len(),
                ws == records(stored@),
                forall|id: u32| #[trigger]
                    used@.contains(id) <==> exists|j: int|
                        0 <= j < i && (#[trigger] ws[j]).node.transactional_id == Some(id),
            decreases stored.len() - i,
        {
            assert(ws[i as int].node.transactional_id == stored@[i as int].worker_node.transactional_id);
            if let Some(id) = stored[i].worker_node.transactional_id {
                used.insert(id);
            }
            i = i + 1;
        }
        assert(forall|id: u32| #[trigger] used@.contains(id) <==> id_used(ws, id));
        let mut available: Vec<u32> = Vec::new();
        let mut id: u32 = 0;
        while id < MAX_WORKER_REUSABLE_ID_COUNT
            invariant
                id <= MAX_WORKER_REUSABLE_ID_COUNT,
                forall|id: u32| #[trigger] used@.contains(id) <==> id_used(ws, id),
                available@ == free_ids(ws, id as nat),
            decreases MAX_WORKER_REUSABLE_ID_COUNT - id,
        {
            if !used.contains(&id) {
                available.push(id);
            }
            id = id + 1;
        }
        proof {
            lemma_free_ids(ws, MAX_WORKER_REUSABLE_ID_COUNT as nat);
            assert forall|k: int| 0 <= k < free.len() implies #[trigger] free[k]
                < MAX_WORKER_REUSABLE_ID_COUNT by {
                assert(free.contains(free[k]));
            }
            assert(ids_partitioned(ws, free));
            assert(ws.take(0) =~= Seq::<Record>::empty());
            assert(free.skip(0) =~= free);
        }
        let mut workers = stored;
        let mut k: usize = 0;
        assert(with_ids(ws.take(0), free) + ws.skip(0) =~= ws);
        while k < workers.len()
            invariant
                k <= workers.len(),
                workers@.len() == ws.len(),
                hosts_distinct(ws),
                hosts_distinct(records(workers@)),
                free == free_ids(ws, MAX_WORKER_REUSABLE_ID_COUNT as nat),
                lacking(ws.take(k as int)) <= free.len(),
                available@ == free.skip(lacking(ws.take(k as int)) as int),
                with_ids(ws.take(k as int), free).len() == k,
                forall|j: int|
                    0 <= j < k ==> (#[trigger] workers@[j])@ == with_ids(
                        ws.take(k as int),
                        free,
                    )[j],
                forall|j: int| k <= j < ws.len() ==> (#[trigger] workers@[j])@ == ws[j],
                ids_partitioned(records(workers@), available@),
                ws == records(stored@),
            decreases workers.len() - k,
        {
            assert(ws.take(k + 1).drop_last() =~= ws.take(k as int));
            assert(ws.take(k + 1).last() == ws[k as int]);
            assert(workers@[k as int]@ == ws[k as int]);
            let worker_type = workers[k].worker_node.worker_type;
            if workers[k].worker_node.transactional_id.is_none() && (worker_type
                == WorkerType::ComputeNode || worker_type == WorkerType::Frontend) {
                if available.len() == 0 {
                    proof {
                        lemma_lacking_grows(ws, k + 1);
                    }
                    return Err(ClusterError::NoTransactionalId);
                }
                let ghost before = records(workers@);
                let ghost free_before = available@;
                let taken: u32 = available.remove(0);
                assert(available@ =~= free_before.skip(1));
                let worker = &mut workers[k];
                worker.worker_node.transactional_id = Some(taken);
                proof {
                    let w = workers@[k as int]@;
                    assert(records(workers@) =~= before.update(k as int, w));
                    lemma_take_id(before, free_before, k as int, w);
                    assert(free_before.skip(1) =~= free.skip(
                        lacking(ws.take(k + 1)) as int,
                    ));
                    let r = records(workers@);
                    assert forall|a: int| 0 <= a < r.len() implies (#[trigger] r[a]).node.host
                        == before[a].node.host by {}
                }
            }
            k = k + 1;
        }
        assert(ws.take(k as int) =~= ws);
        assert(records(workers@) =~= with_ids(ws, free));
        Ok(
            ClusterManagerCore {
                workers,
                available_transactional_ids: available,
                started_at,
            },
        )
    }

    /// The place of the worker with the given address.
    pub fn find_by_host(&self, host: &HostAddress) -> (res: Option<usize>)
        ensures
            match res {
                Some(i) => place_of_host(self@, host@) == Some(i as int) && i < self@.len(),
                None => place_of_host(self@, host@) is None,
            },
    {
        let ghost ws = self@;
        let mut i: usize = self.workers.len();
        assert(ws.take(i as int) =~= ws);
        while i > 0
            invariant
                i <= self.workers.len(),
                ws == self@,
                place_of_host(ws, host@) == place_of_host(ws.take(i as int), host@),
            decreases i,
        {
            assert(ws.take(i as int).drop_last() =~= ws.take(i - 1));
            assert(ws.take(i as int).last() == self.workers@[i - 1]@);
            if let Some(h) = &self.workers[i - 1].worker_node.host {
                if h.same_host(host) {
                    return Some(i - 1);
                }
            }
            i = i - 1;
        }
        assert(ws.take(0).len() == 0);
        None
    }

    /// The worker with the given address.
    pub fn get_worker_by_host(&self, host_address: &HostAddress) -> (res: Option<&Worker>)
        ensures
            match res {
                Some(w) => place_of_host(self@, host_address@) matches Some(i) && w@ == self@[i],
                None => place_of_host(self@, host_address@) is None,
            },
    {
        match self.find_by_host(host_address) {
            Some(i) => {
                assert(self@[i as int] == self.workers@[i as int]@);
                Some(&self.workers[i])
            },
            None => None,
        }
    }

    /// The worker with the given address, which has to exist.
    pub fn get_worker_by_host_checked(&self, host_address: &HostAddress) -> (res: Result<
        &Worker,
        ClusterError,
    >)
        ensures
            match res {
                Ok(w) => place_of_host(self@, host_address@) matches Some(i) && w@ == self@[i],
                Err(e) => place_of_host(self@, host_address@) is None && e
                    == ClusterError::WorkerNotExist,
            },
    {
        match self.get_worker_by_host(host_address) {
            Some(w) => Ok(w),
            None => Err(ClusterError::WorkerNotExist),
        }
    }

    /// The place of the first worker with the given id.
    pub fn find_by_id(&self, id: u32) -> (res: Option<usize>)
        ensures
            match res {
                Some(i) => place_of_id(self@, id) == Some(i as int) && i < self@.len(),
                None => place_of_id(self@, id) is None,
            },
    {
        let ghost ws = self@;
        let mut i: usize = 0;
        while i < self.workers.len()
            invariant
                i <= self.workers.len(),
                ws == self@,
                place_of_id(ws.take(i as int), id) is None,
            decreases self.workers.len() - i,
        {
            assert(ws.take(i + 1).drop_last() =~= ws.take(i as int));
            assert(ws.take(i + 1).last() == self.workers@[i as int]@);
            if self.workers[i].worker_node.id == id {
                proof {
                    lemma_place_stays(ws, id, i + 1);
                }
                return Some(i);
            }
            i = i + 1;
        }
        assert(ws.take(i as int) =~= ws);
        None
    }

    /// The worker with the given id.
    pub fn get_worker_by_id(&self, id: u32) -> (res: Option<&Worker>)
        ensures
            match res {
                Some(w) => place_of_id(self@, id) matches Some(i) && w@ == self@[i],
                None => place_of_id(self@, id) is None,
            },
    {
        match self.find_by_id(id) {
            Some(i) => {
                assert(self@[i as int] == self.workers@[i as int]@);
                Some(&self.workers[i])
            },
            None => None,
        }
    }
}

proof fn lemma_place_stays(ws: Seq<Record>, id: u32, k: int)
    requires
        0 <= k <= ws.len(),
        place_of_id(ws.take(k), id) is Some,
    ensures
        place_of_id(ws, id) == place_of_id(ws.take(k), id),
    decreases ws.len() - k,
{
    if k < ws.len() {
        assert(ws.take(k + 1).drop_last() =~= ws.take(k));
        lemma_place_stays(ws, id, k + 1);
    } else {
        assert(ws.take(k) =~= ws);
    }
}

proof fn lemma_lacking_grows(ws: Seq<Record>, k: int)
    requires
        0 <= k <= ws.len(),
    ensures
        lacking(ws.take(k)) <= lacking(ws),
    decreases ws.len() - k,
{
    if k < ws.len() {
        assert(ws.take(k + 1).drop_last() =~= ws.take(k));
        lemma_lacking_grows(ws, k + 1);
    } else {
        assert(ws.take(k) =~= ws);
    }
}

} // verus!
