//! What is known of workers and what is listed of them, said of the workers one by one.
use crate::common::worker::{Endpoint, HostAddress, Node, ParallelUnit, Resource, WorkerNode};
use crate::common::worker::{Property, WorkerState, WorkerType};
use crate::manager::cluster::{lemma_place_of_host, place_of_host, place_of_id, records};
use crate::manager::cluster::{free_ids, with_ids, ClusterError, ClusterManagerCore, NeededIds};
use crate::manager::listing::{by_schedulability, count_of, differing, enter_units, expired_at};
use crate::manager::listing::{filtered, listing, nodes_by_id, nodes_of, nodes_used_for, units_by_id};
use crate::manager::listing::{node_map, NodeUse, StreamingClusterInfo, WorkerCounts};
use crate::manager::registration::{without, Activation, Registration};
use crate::manager::worker_record::{generate_cn_parallel_units, parse_property, AddNodeProperty};
use crate::manager::worker_record::{Record, Worker};
use vstd::prelude::*;

verus! {

broadcast use {vstd::std_specs::btree::group_btree_axioms, vstd::laws_cmp::group_laws_cmp};

/// The node is what is shown of the worker: the stored worker, with the machine and the start that are known.
pub open spec fn shows(record: Record, node: Node) -> bool {
    &&& node.id == record.node.id
    &&& node.worker_type == record.node.worker_type
    &&& node.host == record.node.host
    &&& node.state == record.node.state
    &&& node.parallel_units == record.node.parallel_units
    &&& node.property == record.node.property
    &&& node.transactional_id == record.node.transactional_id
    &&& node.resource == record.resource
    &&& node.started_at == record.started_at
}

/// The node is of the kind and in the state that are asked for, where one is asked for.
pub open spec fn asked_for(
    node: Node,
    worker_type: Option<WorkerType>,
    worker_state: Option<WorkerState>,
) -> bool {
    (worker_type is None || worker_type == Some(node.worker_type)) && (worker_state is None
        || worker_state == Some(node.state))
}

proof fn lemma_filtered(
    ws: Seq<Record>,
    worker_type: Option<WorkerType>,
    worker_state: Option<WorkerState>,
    node: Node,
)
    ensures
        filtered(ws, worker_type, worker_state).contains(node) <==> asked_for(
            node,
            worker_type,
            worker_state,
        ) && exists|i: int| 0 <= i < ws.len() && shows(#[trigger] ws[i], node),
        filtered(ws, worker_type, worker_state).len() <= ws.len(),
    decreases ws.len(),
{
    if ws.len() > 0 {
        let front = ws.drop_last();
        let n = ws.len() - 1;
        lemma_filtered(front, worker_type, worker_state, node);
        let before = filtered(front, worker_type, worker_state);
        let now = filtered(ws, worker_type, worker_state);
        let last = crate::manager::worker_record::listed(ws.last());
        assert(ws[n] == ws.last());
        assert(shows(ws[n], last));
        if shows(ws[n], node) {
            assert(node == last);
        }
        if before.contains(node) {
            let i = choose|i: int| 0 <= i < front.len() && shows(#[trigger] front[i], node);
            assert(ws[i] == front[i]);
            assert(now[before.index_of(node)] == node);
        }
        if asked_for(last, worker_type, worker_state) {
            assert(now[before.len() as int] == last);
        }
        if exists|i: int| 0 <= i < ws.len() && shows(#[trigger] ws[i], node) {
            let i = choose|i: int| 0 <= i < ws.len() && shows(#[trigger] ws[i], node);
            if i < n {
                assert(front[i] == ws[i]);
            }
        }
        if now.contains(node) && !before.contains(node) {
            let k = now.index_of(node);
            if k < before.len() {
                assert(before[k] == node);
            }
        }
    } else {
        assert(!filtered(ws, worker_type, worker_state).contains(node));
    }
}

proof fn lemma_listing(
    ws: Seq<Record>,
    meta: Node,
    worker_type: Option<WorkerType>,
    worker_state: Option<WorkerState>,
    node: Node,
)
    ensures
        listing(ws, meta, worker_type, worker_state).contains(node) <==> asked_for(
            node,
            worker_type,
            worker_state,
        ) && (node == meta || exists|i: int| 0 <= i < ws.len() && shows(#[trigger] ws[i], node)),
{
    lemma_filtered(ws, worker_type, worker_state, node);
    let workers = filtered(ws, worker_type, worker_state);
    let all = listing(ws, meta, worker_type, worker_state);
    if workers.contains(node) {
        assert(all[workers.index_of(node)] == node);
    }
    if asked_for(meta, worker_type, worker_state) {
        assert(all[workers.len() as int] == meta);
    }
    if all.contains(node) {
        let k = all.index_of(node);
        if k < workers.len() {
            assert(workers[k] == node);
        }
    }
}

/// A node is listed if and only if it is the meta node or shows a worker, and is of the kind and in the state that
/// are asked for.
pub proof fn lemma_listed(
    core: &ClusterManagerCore,
    worker_type: Option<WorkerType>,
    worker_state: Option<WorkerState>,
    meta: WorkerNode,
    res: Vec<WorkerNode>,
    node: Node,
)
    requires
        call_ensures(
            ClusterManagerCore::list_worker_node,
            (core, worker_type, worker_state, meta),
            res,
        ),
    ensures
        nodes_of(res@).contains(node) <==> asked_for(node, worker_type, worker_state) && (node
            == meta@ || exists|i: int| 0 <= i < core@.len() && shows(#[trigger] core@[i], node)),
{
    lemma_listing(core@, meta@, worker_type, worker_state, node);
}

/// The node is marked for the use.
pub open spec fn serves(node: Node, node_use: NodeUse) -> bool {
    match node.property {
        Some(p) => match node_use {
            NodeUse::Streaming => p.is_streaming,
            NodeUse::Serving => p.is_serving,
        },
        None => false,
    }
}

proof fn lemma_used_for(nodes: Seq<Node>, node_use: NodeUse, node: Node)
    ensures
        nodes_used_for(nodes, node_use).contains(node) <==> nodes.contains(node) && serves(
            node,
            node_use,
        ),
    decreases nodes.len(),
{
    if nodes.len() > 0 {
        let front = nodes.drop_last();
        lemma_used_for(front, node_use, node);
        let before = nodes_used_for(front, node_use);
        let now = nodes_used_for(nodes, node_use);
        assert(nodes[nodes.len() - 1] == nodes.last());
        if nodes.contains(node) && node != nodes.last() {
            let i = nodes.index_of(node);
            assert(front[i] == node);
        }
        if front.contains(node) {
            assert(nodes[front.index_of(node)] == node);
        }
        if serves(nodes.last(), node_use) {
            assert(now[before.len() as int] == nodes.last());
            if before.contains(node) {
                assert(now[before.index_of(node)] == node);
            }
        }
    } else {
        assert(!nodes.contains(node));
        assert(!nodes_used_for(nodes, node_use).contains(node));
    }
}

/// Streaming workers are the compute nodes marked for streaming, and serving ones those marked for serving, in the
/// state that is asked for; active ones are running.
pub proof fn lemma_listed_by_use(
    core: &ClusterManagerCore,
    worker_state: Option<WorkerState>,
    meta: WorkerNode,
    streaming: Vec<WorkerNode>,
    serving: Vec<WorkerNode>,
    active_streaming: Vec<WorkerNode>,
    active_serving: Vec<WorkerNode>,
    node: Node,
)
    requires
        call_ensures(
            ClusterManagerCore::list_streaming_worker_node,
            (core, worker_state, meta),
            streaming,
        ),
        call_ensures(
            ClusterManagerCore::list_serving_worker_node,
            (core, worker_state, meta),
            serving,
        ),
        call_ensures(
            ClusterManagerCore::list_active_streaming_compute_nodes,
            (core, meta),
            active_streaming,
        ),
        call_ensures(
            ClusterManagerCore::list_active_serving_compute_nodes,
            (core, meta),
            active_serving,
        ),
    ensures
        ({
            let known = node.worker_type == WorkerType::ComputeNode && (node == meta@ || exists|
                i: int,
            | 0 <= i < core@.len() && shows(#[trigger] core@[i], node));
            let state_fits = worker_state is None || worker_state == Some(node.state);
            let running = node.state == WorkerState::Running;
            let streams = node.property matches Some(p) && p.is_streaming;
            let serves_queries = node.property matches Some(p) && p.is_serving;
            &&& nodes_of(streaming@).contains(node) <==> known && state_fits && streams
            &&& nodes_of(serving@).contains(node) <==> known && state_fits && serves_queries
            &&& nodes_of(active_streaming@).contains(node) <==> known && running && streams
            &&& nodes_of(active_serving@).contains(node) <==> known && running && serves_queries
        }),
{
    let compute = Some(WorkerType::ComputeNode);
    lemma_listing(core@, meta@, compute, worker_state, node);
    lemma_listing(core@, meta@, compute, Some(WorkerState::Running), node);
    let all = listing(core@, meta@, compute, worker_state);
    let active = listing(core@, meta@, compute, Some(WorkerState::Running));
    lemma_used_for(all, NodeUse::Streaming, node);
    lemma_used_for(all, NodeUse::Serving, node);
    lemma_used_for(active, NodeUse::Streaming, node);
    lemma_used_for(active, NodeUse::Serving, node);
}

proof fn lemma_by_schedulability(nodes: Seq<Node>, unschedulable: bool, node: Node)
    ensures
        by_schedulability(nodes, unschedulable).contains(node) <==> nodes.contains(node) && (
        node.property matches Some(p) && p.is_unschedulable) == unschedulable,
    decreases nodes.len(),
{
    if nodes.len() > 0 {
        let front = nodes.drop_last();
        lemma_by_schedulability(front, unschedulable, node);
        let before = by_schedulability(front, unschedulable);
        let now = by_schedulability(nodes, unschedulable);
        assert(nodes[nodes.len() - 1] == nodes.last());
        if nodes.contains(node) && node != nodes.last() {
            let i = nodes.index_of(node);
            assert(front[i] == node);
        }
        if front.contains(node) {
            assert(nodes[front.index_of(node)] == node);
        }
        if (nodes.last().property matches Some(p) && p.is_unschedulable) == unschedulable {
            assert(now[before.len() as int] == nodes.last());
            if before.contains(node) {
                assert(now[before.index_of(node)] == node);
            }
        }
    } else {
        assert(!nodes.contains(node));
        assert(!by_schedulability(nodes, unschedulable).contains(node));
    }
}

proof fn lemma_nodes_by_id(nodes: Seq<Node>, id: u32)
    ensures
        nodes_by_id(nodes).contains_key(id) <==> exists|i: int|
            0 <= i < nodes.len() && (#[trigger] nodes[i]).id == id,
        nodes_by_id(nodes).contains_key(id) ==> nodes.contains(nodes_by_id(nodes)[id])
            && nodes_by_id(nodes)[id].id == id,
    decreases nodes.len(),
{
    if nodes.len() > 0 {
        let front = nodes.drop_last();
        let n = nodes.len() - 1;
        lemma_nodes_by_id(front, id);
        assert(nodes[n] == nodes.last());
        if nodes_by_id(front).contains_key(id) {
            let x = nodes_by_id(front)[id];
            assert(nodes[front.index_of(x)] == x);
            let i = choose|i: int| 0 <= i < front.len() && (#[trigger] front[i]).id == id;
            assert(nodes[i] == front[i]);
        }
        if exists|i: int| 0 <= i < nodes.len() && (#[trigger] nodes[i]).id == id {
            let i = choose|i: int| 0 <= i < nodes.len() && (#[trigger] nodes[i]).id == id;
            if i < n {
                assert(front[i] == nodes[i]);
            }
        }
    }
}

/// The node has the parallel unit.
pub open spec fn node_has(node: Node, unit: ParallelUnit) -> bool {
    node.parallel_units.contains(unit)
}

proof fn lemma_enter_units(m: Map<u32, ParallelUnit>, units: Seq<ParallelUnit>, u: u32)
    ensures
        ({
            let after = enter_units(m, units);
            let own = exists|p: int| 0 <= p < units.len() && (#[trigger] units[p]).id == u;
            &&& after.contains_key(u) <==> own || m.contains_key(u)
            &&& own ==> units.contains(after[u]) && after[u].id == u
            &&& !own && m.contains_key(u) ==> after[u] == m[u]
        }),
    decreases units.len(),
{
    if units.len() > 0 {
        let front = units.drop_last();
        let n = units.len() - 1;
        lemma_enter_units(m, front, u);
        assert(units[n] == units.last());
        if exists|p: int| 0 <= p < front.len() && (#[trigger] front[p]).id == u {
            let p = choose|p: int| 0 <= p < front.len() && (#[trigger] front[p]).id == u;
            assert(units[p] == front[p]);
            let x = enter_units(m, front)[u];
            assert(units[front.index_of(x)] == x);
        }
        if exists|p: int| 0 <= p < units.len() && (#[trigger] units[p]).id == u {
            let p = choose|p: int| 0 <= p < units.len() && (#[trigger] units[p]).id == u;
            if p < n {
                assert(front[p] == units[p]);
            }
        }
    }
}

proof fn lemma_units_by_id(nodes: Seq<Node>, u: u32)
    ensures
        units_by_id(nodes).contains_key(u) <==> exists|i: int, p: int|
            0 <= i < nodes.len() && 0 <= p < nodes[i].parallel_units.len() && (
            #[trigger] nodes[i].parallel_units[p]).id == u,
        units_by_id(nodes).contains_key(u) ==> units_by_id(nodes)[u].id == u && exists|i: int|
            0 <= i < nodes.len() && node_has(#[trigger] nodes[i], units_by_id(nodes)[u]),
    decreases nodes.len(),
{
    if nodes.len() > 0 {
        let front = nodes.drop_last();
        let n = nodes.len() - 1;
        let last = nodes.last();
        lemma_units_by_id(front, u);
        lemma_enter_units(units_by_id(front), last.parallel_units, u);
        assert(nodes[n] == last);
        let own = exists|p: int|
            0 <= p < last.parallel_units.len() && (#[trigger] last.parallel_units[p]).id == u;
        if own {
            let p = choose|p: int|
                0 <= p < last.parallel_units.len() && (#[trigger] last.parallel_units[p]).id == u;
            assert(nodes[n].parallel_units[p].id == u);
            assert(node_has(nodes[n], units_by_id(nodes)[u]));
        } else if units_by_id(front).contains_key(u) {
            let (i, p) = choose|i: int, p: int|
                0 <= i < front.len() && 0 <= p < front[i].parallel_units.len() && (
                #[trigger] front[i].parallel_units[p]).id == u;
            assert(nodes[i].parallel_units[p].id == u);
            let k = choose|k: int|
                0 <= k < front.len() && node_has(#[trigger] front[k], units_by_id(front)[u]);
            assert(node_has(nodes[k], units_by_id(nodes)[u]));
        }
        if exists|i: int, p: int|
            0 <= i < nodes.len() && 0 <= p < nodes[i].parallel_units.len() && (
            #[trigger] nodes[i].parallel_units[p]).id == u {
            let (i, p) = choose|i: int, p: int|
                0 <= i < nodes.len() && 0 <= p < nodes[i].parallel_units.len() && (
                #[trigger] nodes[i].parallel_units[p]).id == u;
            if i < n {
                assert(front[i].parallel_units[p].id == u);
            } else {
                assert(last.parallel_units[p].id == u);
            }
        }
    }
}

/// A running compute node that is marked for streaming, and is marked as not to be scheduled or is not.
pub open spec fn runs_jobs(core: &ClusterManagerCore, meta: Node, node: Node, unschedulable: bool) -> bool {
    &&& node.worker_type == WorkerType::ComputeNode
    &&& node.state == WorkerState::Running
    &&& node.property matches Some(p)
    &&& p.is_streaming
    &&& p.is_unschedulable == unschedulable
    &&& node == meta || exists|i: int| 0 <= i < core@.len() && shows(#[trigger] core@[i], node)
}

/// Jobs are scheduled on the running streaming nodes that may be scheduled and on their parallel units; the units
/// of the others are known too, and kept apart.
pub proof fn lemma_cluster_info(
    core: &ClusterManagerCore,
    meta: WorkerNode,
    res: StreamingClusterInfo,
    node: Node,
    k: int,
    id: u32,
)
    requires
        call_ensures(ClusterManagerCore::get_streaming_cluster_info, (core, meta), res),
    ensures
        runs_jobs(core, meta@, node, false) ==> res.worker_nodes@.contains_key(node.id),
        runs_jobs(core, meta@, node, false) && 0 <= k < node.parallel_units.len()
            ==> res.parallel_units@.contains_key(node.parallel_units[k].id),
        runs_jobs(core, meta@, node, true) && 0 <= k < node.parallel_units.len()
            ==> res.unschedulable_parallel_units@.contains_key(node.parallel_units[k].id),
        res.worker_nodes@.contains_key(id) ==> runs_jobs(
            core,
            meta@,
            res.worker_nodes@[id]@,
            false,
        ) && res.worker_nodes@[id]@.id == id,
        res.parallel_units@.contains_key(id) ==> res.parallel_units@[id].id == id && exists|x: Node|
            runs_jobs(core, meta@, x, false) && #[trigger] node_has(x, res.parallel_units@[id]),
        res.unschedulable_parallel_units@.contains_key(id)
            ==> res.unschedulable_parallel_units@[id].id == id && exists|x: Node|
            runs_jobs(core, meta@, x, true) && #[trigger] node_has(
                x,
                res.unschedulable_parallel_units@[id],
            ),
{
    let all = listing(
        core@,
        meta@,
        Some(WorkerType::ComputeNode),
        Some(WorkerState::Running),
    );
    let running = nodes_used_for(all, NodeUse::Streaming);
    let active = by_schedulability(running, false);
    let others = by_schedulability(running, true);
    assert forall|x: Node| #[trigger] active.contains(x) <==> runs_jobs(core, meta@, x, false) by {
        lemma_listing(
            core@,
            meta@,
            Some(WorkerType::ComputeNode),
            Some(WorkerState::Running),
            x,
        );
        lemma_used_for(all, NodeUse::Streaming, x);
        lemma_by_schedulability(running, false, x);
    }
    assert forall|x: Node| #[trigger] others.contains(x) <==> runs_jobs(core, meta@, x, true) by {
        lemma_listing(
            core@,
            meta@,
            Some(WorkerType::ComputeNode),
            Some(WorkerState::Running),
            x,
        );
        lemma_used_for(all, NodeUse::Streaming, x);
        lemma_by_schedulability(running, true, x);
    }
    let m = node_map(res.worker_nodes@);
    assert(m == nodes_by_id(active));
    lemma_nodes_by_id(active, node.id);
    lemma_nodes_by_id(active, id);
    lemma_units_by_id(active, id);
    lemma_units_by_id(others, id);
    if active.contains(node) {
        let i = active.index_of(node);
        assert(active[i].id == node.id);
        assert(m.contains_key(node.id));
        if 0 <= k < node.parallel_units.len() {
            lemma_units_by_id(active, node.parallel_units[k].id);
            assert(active[i].parallel_units[k].id == node.parallel_units[k].id);
        }
    }
    if others.contains(node) && 0 <= k < node.parallel_units.len() {
        let i = others.index_of(node);
        lemma_units_by_id(others, node.parallel_units[k].id);
        assert(others[i].parallel_units[k].id == node.parallel_units[k].id);
    }
    if res.worker_nodes@.contains_key(id) {
        assert(m.contains_key(id));
        assert(m[id] == res.worker_nodes@[id]@);
        assert(active.contains(m[id]));
    }
    if res.parallel_units@.contains_key(id) {
        let i = choose|i: int|
            0 <= i < active.len() && node_has(#[trigger] active[i], units_by_id(active)[id]);
        assert(active.contains(active[i]));
        assert(node_has(active[i], res.parallel_units@[id]));
    }
    if res.unschedulable_parallel_units@.contains_key(id) {
        let i = choose|i: int|
            0 <= i < others.len() && node_has(#[trigger] others[i], units_by_id(others)[id]);
        assert(others.contains(others[i]));
        assert(node_has(others[i], res.unschedulable_parallel_units@[id]));
    }
}

proof fn lemma_count(ws: Seq<Record>, worker_type: WorkerType)
    ensures
        count_of(ws, worker_type) == ws.filter(
            |r: Record| r.node.worker_type == worker_type,
        ).len(),
    decreases ws.len(),
{
    reveal(Seq::filter);
    if ws.len() > 0 {
        lemma_count(ws.drop_last(), worker_type);
    }
}

/// Workers are counted by their kind.
pub proof fn lemma_counted_by_kind(core: &ClusterManagerCore, res: WorkerCounts)
    requires
        call_ensures(ClusterManagerCore::count_worker_node, (core,), res),
    ensures
        res.compactor == core@.filter(
            |r: Record| r.node.worker_type == WorkerType::Compactor,
        ).len(),
        res.compute_node == core@.filter(
            |r: Record| r.node.worker_type == WorkerType::ComputeNode,
        ).len(),
        res.frontend == core@.filter(
            |r: Record| r.node.worker_type == WorkerType::Frontend,
        ).len(),
        res.meta == core@.filter(|r: Record| r.node.worker_type == WorkerType::Meta).len(),
{
    lemma_count(core@, WorkerType::Compactor);
    lemma_count(core@, WorkerType::ComputeNode);
    lemma_count(core@, WorkerType::Frontend);
    lemma_count(core@, WorkerType::Meta);
}

proof fn lemma_differing(ws: Seq<Record>, ids: Seq<u32>, unschedulable: bool, id: u32)
    ensures
        differing(ws, ids, unschedulable).contains(id) <==> ids.contains(id) && exists|i: int|
            0 <= i < ws.len() && (#[trigger] ws[i]).node.id == id && ws[i].node.property is Some
                && ws[i].node.property->Some_0.is_unschedulable != unschedulable,
    decreases ws.len(),
{
    if ws.len() > 0 {
        let front = ws.drop_last();
        let n = ws.len() - 1;
        lemma_differing(front, ids, unschedulable, id);
        let before = differing(front, ids, unschedulable);
        let now = differing(ws, ids, unschedulable);
        assert(ws[n] == ws.last());
        if before.contains(id) {
            let i = choose|i: int|
                0 <= i < front.len() && (#[trigger] front[i]).node.id == id
                    && front[i].node.property is Some
                    && front[i].node.property->Some_0.is_unschedulable != unschedulable;
            assert(ws[i] == front[i]);
            assert(now[before.index_of(id)] == id);
        }
        if now.len() > before.len() {
            assert(now[before.len() as int] == ws[n].node.id);
        }
        if now.contains(id) && !before.contains(id) {
            let k = now.index_of(id);
            if k < before.len() {
                assert(before[k] == id);
            }
        }
        if exists|i: int|
            0 <= i < ws.len() && (#[trigger] ws[i]).node.id == id && ws[i].node.property is Some
                && ws[i].node.property->Some_0.is_unschedulable != unschedulable {
            let i = choose|i: int|
                0 <= i < ws.len() && (#[trigger] ws[i]).node.id == id && ws[i].node.property is Some
                    && ws[i].node.property->Some_0.is_unschedulable != unschedulable;
            if i < n {
                assert(front[i] == ws[i]);
            }
        }
    } else {
        assert(!differing(ws, ids, unschedulable).contains(id));
    }
}

/// Marking workers: those that are named and are of use get the mark, and nothing else of them changes; all others
/// stay as they are. Those that have to be stored are the ones that had the other mark.
pub proof fn lemma_marked(
    core: &mut ClusterManagerCore,
    ids: &Vec<u32>,
    unschedulable: bool,
    stored: Vec<u32>,
    before: &ClusterManagerCore,
    i: int,
    id: u32,
)
    requires
        *before == *old(core),
        call_ensures(
            ClusterManagerCore::schedulability_changes,
            (before, ids, unschedulable),
            stored,
        ),
        call_ensures(
            ClusterManagerCore::update_schedulability,
            (core, ids, unschedulable),
            (),
        ),
        0 <= i < old(core)@.len(),
    ensures
        ({
            let was = old(core)@[i];
            let now = final(core)@[i];
            let named = ids@.contains(was.node.id) && was.node.property is Some;
            &&& final(core)@.len() == old(core)@.len()
            &&& !named ==> now == was
            &&& named ==> {
                &&& now.node.property is Some
                &&& now.node.property->Some_0.is_unschedulable == unschedulable
                &&& now.node.property->Some_0.is_streaming
                    == was.node.property->Some_0.is_streaming
                &&& now.node.property->Some_0.is_serving == was.node.property->Some_0.is_serving
                &&& now.node.id == was.node.id && now.node.host == was.node.host
                &&& now.node.parallel_units == was.node.parallel_units
                &&& now.node.worker_type == was.node.worker_type && now.node.state
                    == was.node.state
                &&& now.node.transactional_id == was.node.transactional_id
                &&& now.expire_at == was.expire_at && now.info == was.info
            }
        }),
        stored@.contains(id) <==> ids@.contains(id) && exists|j: int|
            0 <= j < old(core)@.len() && (#[trigger] old(core)@[j]).node.id == id
                && old(core)@[j].node.property is Some
                && old(core)@[j].node.property->Some_0.is_unschedulable != unschedulable,
{
    lemma_differing(old(core)@, ids@, unschedulable, id);
}

proof fn lemma_place_of_id(ws: Seq<Record>, id: u32)
    ensures
        match place_of_id(ws, id) {
            Some(i) => 0 <= i < ws.len() && ws[i].node.id == id && forall|j: int|
                0 <= j < i ==> (#[trigger] ws[j]).node.id != id,
            None => forall|j: int| 0 <= j < ws.len() ==> (#[trigger] ws[j]).node.id != id,
        },
    decreases ws.len(),
{
    if ws.len() > 0 {
        let front = ws.drop_last();
        lemma_place_of_id(front, id);
        assert(ws[ws.len() - 1] == ws.last());
        match place_of_id(front, id) {
            Some(i) => {
                assert(ws[i] == front[i]);
                assert forall|j: int| 0 <= j < i implies (#[trigger] ws[j]).node.id != id by {
                    assert(front[j] == ws[j]);
                }
            },
            None => {
                assert forall|j: int| 0 <= j < ws.len() - 1 implies (#[trigger] ws[j]).node.id
                    != id by {
                    assert(front[j] == ws[j]);
                }
            },
        }
    }
}

/// A worker that is looked up by id is the first one with that id; it is not found only if there is none.
pub proof fn lemma_found_by_id(core: &ClusterManagerCore, id: u32, res: Option<&Worker>)
    requires
        call_ensures(ClusterManagerCore::get_worker_by_id, (core, id), res),
    ensures
        match res {
            Some(w) => exists|i: int|
                0 <= i < core@.len() && #[trigger] core@[i] == w@ && core@[i].node.id == id
                    && forall|j: int| 0 <= j < i ==> (#[trigger] core@[j]).node.id != id,
            None => forall|j: int| 0 <= j < core@.len() ==> (#[trigger] core@[j]).node.id != id,
        },
{
    lemma_place_of_id(core@, id);
}

/// A worker that is looked up by address has that address; it is not found only if no worker has it.
pub proof fn lemma_found_by_host(core: &ClusterManagerCore, host: &HostAddress, res: Option<&Worker>)
    requires
        call_ensures(ClusterManagerCore::get_worker_by_host, (core, host), res),
    ensures
        match res {
            Some(w) => w@.node.host == Some(host@) && exists|i: int|
                0 <= i < core@.len() && #[trigger] core@[i] == w@,
            None => forall|j: int|
                0 <= j < core@.len() ==> (#[trigger] core@[j]).node.host != Some(host@),
        },
{
    lemma_place_of_host(core@, host@);
}

/// A worker that is heard of expires at the new time and has reported what it reports now; nothing else changes,
/// and a worker that is not known is refused.
pub proof fn lemma_heard_of(
    core: &mut ClusterManagerCore,
    worker_id: u32,
    expire_at: u64,
    info: Vec<u64>,
    res: Result<(), ClusterError>,
    i: int,
)
    requires
        call_ensures(
            ClusterManagerCore::heartbeat,
            (core, worker_id, expire_at, info),
            res,
        ),
        0 <= i < old(core)@.len(),
        forall|j: int, k: int|
            #![trigger old(core)@[j], old(core)@[k]]
            0 <= j < k < old(core)@.len() ==> old(core)@[j].node.id != old(core)@[k].node.id,
    ensures
        final(core)@.len() == old(core)@.len(),
        old(core)@[i].node.id == worker_id ==> {
            let now = final(core)@[i];
            let was = old(core)@[i];
            &&& res is Ok
            &&& now.expire_at == expire_at
            &&& now.info == info@
            &&& now.node == was.node && now.started_at == was.started_at && now.resource
                == was.resource
        },
        old(core)@[i].node.id != worker_id ==> final(core)@[i] == old(core)@[i],
        res is Err ==> res == Err::<(), ClusterError>(ClusterError::InvalidWorker { worker_id })
            && forall|j: int|
            0 <= j < old(core)@.len() ==> (#[trigger] old(core)@[j]).node.id != worker_id,
{
    lemma_place_of_id(old(core)@, worker_id);
    match place_of_id(old(core)@, worker_id) {
        Some(k) => {
            if k != i && old(core)@[i].node.id == worker_id {
                if k < i {
                    assert(old(core)@[k].node.id != old(core)@[i].node.id);
                } else {
                    assert(old(core)@[i].node.id != old(core)@[k].node.id);
                }
            }
        },
        None => {},
    }
}

proof fn lemma_expired(ws: Seq<Record>, now: u64, r: Record)
    ensures
        expired_at(ws, now).contains(r) <==> ws.contains(r) && r.expire_at < now,
    decreases ws.len(),
{
    if ws.len() > 0 {
        let front = ws.drop_last();
        lemma_expired(front, now, r);
        let before = expired_at(front, now);
        let all = expired_at(ws, now);
        assert(ws[ws.len() - 1] == ws.last());
        if ws.contains(r) && r != ws.last() {
            let i = ws.index_of(r);
            assert(front[i] == r);
        }
        if front.contains(r) {
            assert(ws[front.index_of(r)] == r);
        }
        if ws.last().expire_at < now {
            assert(all[before.len() as int] == ws.last());
            if before.contains(r) {
                assert(all[before.index_of(r)] == r);
            }
        }
    } else {
        assert(!ws.contains(r));
        assert(!expired_at(ws, now).contains(r));
    }
}

/// The workers that have expired are those whose time is before now, with their addresses, and no others.
pub proof fn lemma_expired_before_now(
    core: &ClusterManagerCore,
    now: u64,
    res: Vec<(u32, HostAddress)>,
    i: int,
    k: int,
)
    requires
        call_ensures(ClusterManagerCore::expired_workers, (core, now), res),
    ensures
        0 <= i < core@.len() && core@[i].expire_at < now ==> exists|j: int|
            0 <= j < res@.len() && (#[trigger] res@[j]).0 == core@[i].node.id && Some(res@[j].1@)
                == core@[i].node.host,
        0 <= k < res@.len() ==> exists|j: int|
            0 <= j < core@.len() && (#[trigger] core@[j]).expire_at < now && res@[k].0
                == core@[j].node.id && Some(res@[k].1@) == core@[j].node.host,
{
    let gone = expired_at(core@, now);
    if 0 <= i < core@.len() && core@[i].expire_at < now {
        lemma_expired(core@, now, core@[i]);
        assert(core@.contains(core@[i]));
        let j = gone.index_of(core@[i]);
        assert(res@[j].0 == core@[i].node.id);
    }
    if 0 <= k < res@.len() {
        lemma_expired(core@, now, gone[k]);
        assert(gone.contains(gone[k]));
        let j = core@.index_of(gone[k]);
        assert(core@[j].expire_at < now);
        assert(res@[k].0 == gone[k].node.id);
    }
}

/// A time to expire is given to the workers that have none, and only to them.
pub proof fn lemma_expiry_given(core: &mut ClusterManagerCore, expire_at: u64, i: int)
    requires
        call_ensures(ClusterManagerCore::init_expire_at, (core, expire_at), ()),
        0 <= i < old(core)@.len(),
    ensures
        final(core)@.len() == old(core)@.len(),
        final(core)@[i].expire_at == (if old(core)@[i].expire_at == 0 {
            expire_at
        } else {
            old(core)@[i].expire_at
        }),
        final(core)@[i].node == old(core)@[i].node,
        final(core)@[i].info == old(core)@[i].info,
{
    assert(final(core)@[i] == crate::manager::listing::with_expiry(old(core)@[i], expire_at));
}

/// The worker at this address registers for the first time.
pub open spec fn is_unknown(core: &ClusterManagerCore, host: Endpoint) -> bool {
    forall|j: int| 0 <= j < core@.len() ==> (#[trigger] core@[j]).node.host != Some(host)
}

/// A worker that is not known gets a record: with the new id, starting, at its address; a compute node with as many
/// parallel units as it asks for, numbered one by one from the given id on, and with its uses; compute nodes and
/// frontends with the first free transactional id. Where none is free, it is refused.
pub proof fn lemma_new_worker_registers(
    core: &mut ClusterManagerCore,
    before: &ClusterManagerCore,
    worker_type: WorkerType,
    host: HostAddress,
    added: AddNodeProperty,
    resource: Resource,
    now: u64,
    expire_at: u64,
    worker_id: u32,
    start_id: u32,
    keep_surplus: bool,
    res: Result<Registration, ClusterError>,
)
    requires
        *before == *old(core),
        call_ensures(
            ClusterManagerCore::register,
            (
                core,
                worker_type,
                host,
                added,
                resource,
                now,
                expire_at,
                worker_id,
                start_id,
                keep_surplus,
            ),
            res,
        ),
        is_unknown(before, host@),
    ensures
        final(core)@ == old(core)@,
        old(core).available_transactional_ids@.len() == 0 ==> res matches Err(
            ClusterError::NoReusableId,
        ),
        old(core).available_transactional_ids@.len() > 0 ==> match res {
            Ok(Registration::Insert(worker)) => {
                let node = worker@.node;
                let computes = worker_type == WorkerType::ComputeNode;
                &&& node.id == worker_id
                &&& node.worker_type == worker_type
                &&& node.host == Some(host@)
                &&& node.state == WorkerState::Starting
                &&& computes ==> node.parallel_units.len() == added.worker_node_parallelism as usize
                &&& !computes ==> node.parallel_units.len() == 0
                &&& computes ==> forall|k: int|
                    0 <= k < node.parallel_units.len() ==> (
                    #[trigger] node.parallel_units[k]).worker_node_id == worker_id
                        && node.parallel_units[k].id == (start_id + k) as u32
                &&& computes ==> (node.property matches Some(p) && p.is_streaming
                    == added.is_streaming && p.is_serving == added.is_serving
                    && p.is_unschedulable == added.is_unschedulable)
                &&& !computes ==> node.property is None
                &&& node.transactional_id == (if computes || worker_type == WorkerType::Frontend {
                    Some(old(core).available_transactional_ids@[0])
                } else {
                    None
                })
                &&& worker@.started_at == Some(now)
                &&& worker@.resource == Some(resource@)
                &&& worker@.info.len() == 0
            },
            _ => false,
        },
{
    lemma_place_of_host(old(core)@, host@);
    match place_of_host(old(core)@, host@) {
        Some(i) => {
            assert(before@[i].node.host == Some(host@));
        },
        None => {},
    }
}

/// A worker that is known registers again: its id and address stay, and so does the mark that it is not to be
/// scheduled. It has as many parallel units as it asks for: those that it had come first, new ones are numbered one
/// by one from the given id on, and surplus ones are kept only where that is asked for.
pub proof fn lemma_known_worker_registers(
    core: &mut ClusterManagerCore,
    worker_type: WorkerType,
    host: HostAddress,
    added: AddNodeProperty,
    resource: Resource,
    now: u64,
    expire_at: u64,
    worker_id: u32,
    start_id: u32,
    keep_surplus: bool,
    res: Result<Registration, ClusterError>,
    i: int,
    k: int,
)
    requires
        call_ensures(
            ClusterManagerCore::register,
            (
                core,
                worker_type,
                host,
                added,
                resource,
                now,
                expire_at,
                worker_id,
                start_id,
                keep_surplus,
            ),
            res,
        ),
        old(core).wf(),
        0 <= i < old(core)@.len(),
        old(core)@[i].node.host == Some(host@),
    ensures
        ({
            let was = old(core)@[i];
            let had = was.node.parallel_units.len();
            let wanted = added.worker_node_parallelism as usize;
            &&& final(core)@.len() == old(core)@.len()
            &&& final(core)@[i].resource == Some(resource@)
            &&& final(core)@[i].started_at == Some(now)
            &&& final(core)@[i].node == was.node
            &&& 0 <= k < old(core)@.len() && k != i ==> final(core)@[k] == old(core)@[k]
            &&& match res {
                Ok(Registration::Unchanged(node)) => node@ == was.node && had == wanted
                    && final(core)@[i].expire_at == expire_at,
                Ok(Registration::Update(worker)) => {
                    let node = worker@.node;
                    let units = node.parallel_units;
                    &&& node.id == was.node.id && node.host == was.node.host && node.state
                        == was.node.state && node.transactional_id == was.node.transactional_id
                    &&& worker@.expire_at == expire_at && worker@.info == was.info
                    &&& units.len() == (if had > wanted && keep_surplus {
                        had
                    } else {
                        wanted as nat
                    })
                    &&& 0 <= k < units.len() && k < had ==> units[k] == was.node.parallel_units[k]
                    &&& had <= k < units.len() ==> units[k].id == (start_id + (k - had)) as u32
                        && units[k].worker_node_id == was.node.id
                    &&& node.property is Some <==> worker_type == WorkerType::ComputeNode
                    &&& node.property is Some ==> node.property->Some_0.is_unschedulable == (
                    was.node.property matches Some(p) && p.is_unschedulable)
                        && node.property->Some_0.is_streaming == added.is_streaming
                        && node.property->Some_0.is_serving == added.is_serving
                },
                _ => false,
            }
        }),
{
    let ws = old(core)@;
    lemma_place_of_host(ws, host@);
    match place_of_host(ws, host@) {
        Some(j) => {
            if j != i {
                if j < i {
                    assert(ws[j].node.host != ws[i].node.host);
                } else {
                    assert(ws[i].node.host != ws[j].node.host);
                }
            }
        },
        None => {
            assert(ws[i].node.host != Some(host@));
        },
    }
}

proof fn lemma_without_has(free: Seq<u32>, id: u32, x: u32)
    ensures
        without(free, id).contains(x) <==> free.contains(x) && x != id,
    decreases free.len(),
{
    if free.len() > 0 {
        let front = free.drop_last();
        lemma_without_has(front, id, x);
        let before = without(front, id);
        let now = without(free, id);
        assert(free[free.len() - 1] == free.last());
        if free.contains(x) && x != free.last() {
            let i = free.index_of(x);
            assert(front[i] == x);
        }
        if front.contains(x) {
            assert(free[front.index_of(x)] == x);
        }
        if free.last() != id {
            assert(now[before.len() as int] == free.last());
            if before.contains(x) {
                assert(now[before.index_of(x)] == x);
            }
        }
    } else {
        assert(!free.contains(x));
        assert(!without(free, id).contains(x));
    }
}

/// A worker that is added is known afterwards, and its transactional id, and no other, is not free any more. All
/// others stay as they are.
pub proof fn lemma_added_worker_known(core: &mut ClusterManagerCore, worker: Worker, i: int, x: u32)
    requires
        call_ensures(ClusterManagerCore::add_worker_node, (core, worker), ()),
    ensures
        final(core)@.len() == old(core)@.len() + 1,
        final(core)@[old(core)@.len() as int] == worker@,
        0 <= i < old(core)@.len() ==> final(core)@[i] == old(core)@[i],
        final(core).available_transactional_ids@.contains(x) <==> old(
            core
        ).available_transactional_ids@.contains(x) && worker@.node.transactional_id != Some(x),
{
    match worker@.node.transactional_id {
        Some(t) => {
            lemma_without_has(old(core).available_transactional_ids@, t, x);
        },
        None => {},
    }
}

/// A worker that is deleted is not known afterwards, all others are, and its transactional id is the last of the
/// free ones. It is refused only if no worker has the address.
pub proof fn lemma_deleted_worker_gone(
    core: &mut ClusterManagerCore,
    host: &HostAddress,
    res: Result<Worker, ClusterError>,
    r: Record,
)
    requires
        call_ensures(ClusterManagerCore::delete_worker_node, (core, host), res),
        old(core).wf(),
    ensures
        match res {
            Ok(worker) => {
                let free = old(core).available_transactional_ids@;
                &&& worker@.node.host == Some(host@)
                &&& old(core)@.contains(worker@)
                &&& final(core)@.contains(r) <==> old(core)@.contains(r) && r.node.host != Some(
                    host@,
                )
                &&& final(core).available_transactional_ids@ == (
                match worker@.node.transactional_id {
                    Some(t) => free.push(t),
                    None => free,
                })
            },
            Err(e) => {
                &&& e == ClusterError::WorkerNotExist
                &&& forall|j: int|
                    0 <= j < old(core)@.len() ==> (#[trigger] old(core)@[j]).node.host != Some(
                        host@,
                    )
                &&& final(core)@ == old(core)@
            },
        },
{
    let ws = old(core)@;
    lemma_place_of_host(ws, host@);
    match place_of_host(ws, host@) {
        Some(i) => {
            let rest = ws.remove(i);
            if ws.contains(r) && r.node.host != Some(host@) {
                let k = ws.index_of(r);
                if k < i {
                    assert(rest[k] == r);
                } else {
                    assert(rest[k - 1] == r);
                }
            }
            if rest.contains(r) {
                let k = rest.index_of(r);
                if k < i {
                    assert(ws[k] == r);
                    assert(ws[k].node.host != ws[i].node.host);
                } else {
                    assert(ws[k + 1] == r);
                    assert(ws[i].node.host != ws[k + 1].node.host);
                }
            }
        },
        None => {},
    }
}

/// A worker that is activated runs; what else is known of it stays, it has changed if it was not running, and
/// frontends hear of it if it is a compute node.
pub proof fn lemma_activated_worker_runs(
    core: &ClusterManagerCore,
    host: &HostAddress,
    res: Result<Activation, ClusterError>,
    i: int,
)
    requires
        call_ensures(ClusterManagerCore::activate_worker_node, (core, host), res),
        core.wf(),
        0 <= i < core@.len(),
        core@[i].node.host == Some(host@),
    ensures
        match res {
            Ok(a) => {
                let was = core@[i].node;
                let node = a.worker@.node;
                &&& node.state == WorkerState::Running
                &&& node.id == was.id && node.host == was.host && node.worker_type
                    == was.worker_type
                &&& node.parallel_units == was.parallel_units && node.property == was.property
                    && node.transactional_id == was.transactional_id
                &&& a.worker@.expire_at == core@[i].expire_at && a.worker@.info == core@[i].info
                &&& a.changed <==> was.state != WorkerState::Running
                &&& a.notify_frontend <==> was.worker_type == WorkerType::ComputeNode
            },
            Err(_) => false,
        },
{
    let ws = core@;
    lemma_place_of_host(ws, host@);
    match place_of_host(ws, host@) {
        Some(j) => {
            if j < i {
                assert(ws[j].node.host != ws[i].node.host);
            } else if i < j {
                assert(ws[i].node.host != ws[j].node.host);
            }
        },
        None => {
            assert(ws[i].node.host != Some(host@));
        },
    }
}

proof fn lemma_given_ids(ws: Seq<Record>, free: Seq<u32>, i: int)
    ensures
        with_ids(ws, free).len() == ws.len(),
        0 <= i < ws.len() ==> {
            let was = ws[i];
            let now = with_ids(ws, free)[i];
            let takes = was.node.worker_type == WorkerType::ComputeNode || was.node.worker_type
                == WorkerType::Frontend;
            &&& was.node.transactional_id is Some || !takes ==> now == was
            &&& takes ==> now.node.transactional_id is Some
            &&& now.node.id == was.node.id && now.node.host == was.node.host
                && now.node.worker_type == was.node.worker_type && now.node.state
                == was.node.state && now.node.parallel_units == was.node.parallel_units
                && now.node.property == was.node.property
            &&& now.expire_at == was.expire_at && now.started_at == was.started_at && now.resource
                == was.resource && now.info == was.info
        },
    decreases ws.len(),
{
    if ws.len() > 0 {
        let front = ws.drop_last();
        lemma_given_ids(front, free, i);
        assert(ws[ws.len() - 1] == ws.last());
        if 0 <= i < front.len() {
            assert(front[i] == ws[i]);
        }
    }
}

/// Workers that are taken over from the store are all known, as they were stored; compute nodes and frontends that
/// had no transactional id have one, no two the same.
pub proof fn lemma_stored_workers_known(
    stored: Vec<Worker>,
    started_at: u64,
    core: ClusterManagerCore,
    i: int,
    j: int,
)
    requires
        call_ensures(
            ClusterManagerCore::new,
            (stored, started_at),
            Ok::<ClusterManagerCore, ClusterError>(core),
        ),
        0 <= i < stored@.len(),
        0 <= j < stored@.len(),
        i != j,
    ensures
        core@.len() == stored@.len(),
        core.started_at == started_at,
        ({
            let was = stored@[i]@;
            let now = core@[i];
            let takes = was.node.worker_type == WorkerType::ComputeNode || was.node.worker_type
                == WorkerType::Frontend;
            &&& was.node.transactional_id is Some || !takes ==> now == was
            &&& takes ==> now.node.transactional_id is Some
            &&& now.node.transactional_id is Some ==> now.node.transactional_id
                != core@[j].node.transactional_id
                && !core.available_transactional_ids@.contains(
                now.node.transactional_id->Some_0,
            )
            &&& now.node.id == was.node.id && now.node.host == was.node.host
                && now.node.worker_type == was.node.worker_type && now.node.state
                == was.node.state && now.node.parallel_units == was.node.parallel_units
                && now.node.property == was.node.property
        }),
{
    let ws = records(stored@);
    let free = free_ids(ws, crate::manager::cluster::MAX_WORKER_REUSABLE_ID_COUNT as nat);
    lemma_given_ids(ws, free, i);
    lemma_given_ids(ws, free, j);
    assert(ws[i] == stored@[i]@);
    assert(core.wf());
    if core@[i].node.transactional_id is Some {
        if i < j {
            assert(core@[i].node.transactional_id != core@[j].node.transactional_id);
        } else if core@[j].node.transactional_id is Some {
            assert(core@[j].node.transactional_id != core@[i].node.transactional_id);
        }
    }
}

/// Only a worker at an address where none is known needs an id. A known one needs as many new parallel units as it
/// lacks, and a new one all of them if it computes and none if it does not.
pub proof fn lemma_ids_needed(
    core: &ClusterManagerCore,
    worker_type: WorkerType,
    host: &HostAddress,
    parallelism: usize,
    res: NeededIds,
    i: int,
)
    requires
        call_ensures(ClusterManagerCore::needed_ids, (core, worker_type, host, parallelism), res),
        0 <= i < core@.len(),
        forall|j: int, k: int|
            #![trigger core@[j], core@[k]]
            0 <= j < k < core@.len() && core@[j].node.host is Some ==> core@[j].node.host
                != core@[k].node.host,
    ensures
        core@[i].node.host == Some(host@) ==> !res.worker_id && (core@[i].node.parallel_units.len()
            >= parallelism ==> res.parallel_units == 0) && (core@[i].node.parallel_units.len()
            < parallelism ==> core@[i].node.parallel_units.len() + res.parallel_units
            == parallelism),
        (forall|j: int| 0 <= j < core@.len() ==> (#[trigger] core@[j]).node.host != Some(host@))
            ==> res.worker_id && (worker_type == WorkerType::ComputeNode ==> res.parallel_units
            == parallelism) && (worker_type != WorkerType::ComputeNode ==> res.parallel_units == 0),
{
    lemma_place_of_host(core@, host@);
    match place_of_host(core@, host@) {
        Some(k) => {
            if core@[i].node.host == Some(host@) && k != i {
                assert(core@[k].node.host == core@[i].node.host);
            }
        },
        None => {},
    }
}

/// New parallel units have consecutive ids from the first one on, and belong to the worker that they are made for.
pub proof fn lemma_units_made(
    start_id: u32,
    count: usize,
    worker_id: u32,
    res: Vec<ParallelUnit>,
    i: int,
)
    requires
        call_ensures(generate_cn_parallel_units, (start_id, count, worker_id), res),
        start_id + count <= u32::MAX,
    ensures
        res@.len() == count,
        0 <= i < count ==> res@[i].id == start_id + i && res@[i].worker_node_id == worker_id,
{
}

/// Only a compute node is used for something, and for what it says of itself.
pub proof fn lemma_use_stated(worker_type: WorkerType, p: AddNodeProperty, res: Option<Property>)
    requires
        call_ensures(parse_property, (worker_type, p), res),
    ensures
        res is Some <==> worker_type == WorkerType::ComputeNode,
        res matches Some(u) ==> u.is_streaming == p.is_streaming && u.is_serving == p.is_serving
            && u.is_unschedulable == p.is_unschedulable,
{
}

} // verus!
