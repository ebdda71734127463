//! What a plan that resizes tables comes to, said of the parallel units of each fragment.
use crate::common::collections::{ascending, ascending_of, first_in, lemma_ascending_exists};
use crate::common::collections::lemma_first_in;
use crate::common::worker::{ParallelUnit, WorkerNode};
use crate::scale::alignment::units_after;
use crate::scale::checks::current_units;
use crate::scale::model::{ActorStatus, CustomActorInfo, CustomFragmentInfo, DispatcherType};
use crate::scale::model::{FragmentDistributionType, ParallelUnitReschedule, ScaleError};
use crate::scale::model::{TableFragments, TableParallelism, TableResizePolicy, UnitChange};
use crate::scale::no_shuffle::plans_of;
use crate::scale::resize::{drop_unchanged, edge_targets, edges_of, edges_of_actor, edges_of_actors};
use crate::scale::resize::{edges_of_fragments, fragment_resize, generate_table_resize_plan};
use crate::scale::resize::{plan_fragments, plan_tables, table_with, NoShuffleEdge};
use crate::scale::resized::{lemma_resized, slots_apart};
use crate::scale::tables::statuses_of;
use crate::scale::units::{all_units, slots_countable, unit_ids, units_of_workers};
use crate::scale::units::unschedulable_workers;
use std::collections::BTreeMap;
use vstd::prelude::*;

verus! {

broadcast use {vstd::std_specs::btree::group_btree_axioms, vstd::laws_cmp::group_laws_cmp};

/// The worker is one of the given ones and has the parallel unit.
pub open spec fn has_unit(workers: Seq<WorkerNode>, wanted: Set<u32>, i: int, u: u32) -> bool {
    0 <= i < workers.len() && wanted.contains(workers[i].id) && exists|p: int|
        0 <= p < workers[i].parallel_units@.len() && (#[trigger] workers[i].parallel_units@[p]).id
            == u
}

/// The parallel units of the given workers.
pub open spec fn units_available(workers: Seq<WorkerNode>, wanted: Set<u32>) -> Set<u32> {
    Set::new(|u: u32| exists|i: int| #[trigger] has_unit(workers, wanted, i, u))
}

/// No worker is there twice, and no two workers share a parallel unit.
pub open spec fn workers_apart(workers: Seq<WorkerNode>) -> bool {
    forall|i: int, j: int|
        #![trigger workers[i], workers[j]]
        0 <= i < j < workers.len() ==> workers[i].id != workers[j].id && forall|p: int, q: int|
            0 <= p < workers[i].parallel_units@.len() && 0 <= q
                < workers[j].parallel_units@.len() ==> (
            #[trigger] workers[i].parallel_units@[p]).id != (
            #[trigger] workers[j].parallel_units@[q]).id
}

proof fn lemma_unit_ids(units: Seq<ParallelUnit>)
    ensures
        unit_ids(units).finite(),
        forall|u: u32| #[trigger]
            unit_ids(units).contains(u) <==> exists|p: int|
                0 <= p < units.len() && (#[trigger] units[p]).id == u,
    decreases units.len(),
{
    if units.len() > 0 {
        let front = units.drop_last();
        lemma_unit_ids(front);
        assert forall|u: u32| #[trigger] unit_ids(units).contains(u) <==> exists|p: int|
            0 <= p < units.len() && (#[trigger] units[p]).id == u by {
            if unit_ids(front).contains(u) {
                let p = choose|p: int| 0 <= p < front.len() && (#[trigger] front[p]).id == u;
                assert(units[p].id == u);
            }
            assert(units[units.len() - 1] == units.last());
            if exists|p: int| 0 <= p < units.len() && (#[trigger] units[p]).id == u {
                let p = choose|p: int| 0 <= p < units.len() && (#[trigger] units[p]).id == u;
                if p < front.len() {
                    assert(front[p].id == u);
                }
            }
        }
    }
}

proof fn lemma_slots_of(workers: Seq<WorkerNode>, wanted: Set<u32>)
    requires
        workers_apart(workers),
    ensures
        ({
            let slots = units_of_workers(workers, wanted);
            &&& slots.dom().finite()
            &&& forall|w: u32| #[trigger]
                slots.contains_key(w) <==> wanted.contains(w) && exists|i: int|
                    0 <= i < workers.len() && (#[trigger] workers[i]).id == w
            &&& forall|i: int|
                0 <= i < workers.len() && wanted.contains((#[trigger] workers[i]).id)
                    ==> slots[workers[i].id] == unit_ids(workers[i].parallel_units@)
        }),
    decreases workers.len(),
{
    if workers.len() > 0 {
        let front = workers.drop_last();
        let last = workers.len() - 1;
        lemma_slots_of(front, wanted);
        let slots = units_of_workers(workers, wanted);
        let before = units_of_workers(front, wanted);
        assert forall|w: u32| #[trigger] slots.contains_key(w) <==> wanted.contains(w) && exists|
            i: int,
        |
            0 <= i < workers.len() && (#[trigger] workers[i]).id == w by {
            if before.contains_key(w) {
                let i = choose|i: int| 0 <= i < front.len() && (#[trigger] front[i]).id == w;
                assert(workers[i].id == w);
            }
            assert(workers[last] == workers.last());
            if exists|i: int| 0 <= i < workers.len() && (#[trigger] workers[i]).id == w {
                let i = choose|i: int| 0 <= i < workers.len() && (#[trigger] workers[i]).id == w;
                if i < last {
                    assert(front[i].id == w);
                }
            }
        }
        assert forall|i: int|
            0 <= i < workers.len() && wanted.contains((#[trigger] workers[i]).id) implies slots[workers[i].id]
            == unit_ids(workers[i].parallel_units@) by {
            if i < last {
                assert(front[i] == workers[i]);
                assert(workers[i].id != workers[last].id);
            }
        }
    }
}

/// What is available are the parallel units of the workers, and no worker shares one with another.
proof fn lemma_available_units(workers: Seq<WorkerNode>, wanted: Set<u32>)
    requires
        workers_apart(workers),
        slots_countable(units_of_workers(workers, wanted)),
    ensures
        all_units(units_of_workers(workers, wanted)) == units_available(workers, wanted),
        slots_apart(units_of_workers(workers, wanted)),
{
    let slots = units_of_workers(workers, wanted);
    lemma_slots_of(workers, wanted);
    assert forall|u: u32| all_units(slots).contains(u) <==> units_available(
        workers,
        wanted,
    ).contains(u) by {
        if all_units(slots).contains(u) {
            let w = choose|w: u32| slots.contains_key(w) && #[trigger] slots[w].contains(u);
            let i = choose|i: int| 0 <= i < workers.len() && (#[trigger] workers[i]).id == w;
            lemma_unit_ids(workers[i].parallel_units@);
            assert(unit_ids(workers[i].parallel_units@).contains(u));
            assert(has_unit(workers, wanted, i, u));
        }
        if units_available(workers, wanted).contains(u) {
            let i = choose|i: int| #[trigger] has_unit(workers, wanted, i, u);
            lemma_unit_ids(workers[i].parallel_units@);
            assert(slots.contains_key(workers[i].id) && slots[workers[i].id].contains(u));
        }
    }
    assert(all_units(slots) =~= units_available(workers, wanted));
    assert forall|w: u32| #[trigger] slots.contains_key(w) implies slots[w].finite() by {
        let i = choose|i: int| 0 <= i < workers.len() && (#[trigger] workers[i]).id == w;
        lemma_unit_ids(workers[i].parallel_units@);
    }
    assert forall|v: u32, w: u32|
        #![trigger slots[v], slots[w]]
        slots.contains_key(v) && slots.contains_key(w) && v != w implies slots[v].disjoint(
        slots[w],
    ) by {
        let i = choose|i: int| 0 <= i < workers.len() && (#[trigger] workers[i]).id == v;
        let j = choose|j: int| 0 <= j < workers.len() && (#[trigger] workers[j]).id == w;
        lemma_unit_ids(workers[i].parallel_units@);
        lemma_unit_ids(workers[j].parallel_units@);
        assert forall|u: u32| slots[v].contains(u) implies !slots[w].contains(u) by {
            if slots[w].contains(u) {
                let a = workers[i].parallel_units@;
                let b = workers[j].parallel_units@;
                let p = choose|p: int| 0 <= p < a.len() && (#[trigger] a[p]).id == u;
                let q = choose|q: int| 0 <= q < b.len() && (#[trigger] b[q]).id == u;
                if i < j {
                    assert(workers[i].parallel_units@[p].id != workers[j].parallel_units@[q].id);
                } else {
                    assert(workers[j].parallel_units@[q].id != workers[i].parallel_units@[p].id);
                }
            }
        }
    }
}

/// The fragment is at the downstream end of an edge without shuffle.
pub open spec fn led_to(tables: Seq<TableFragments>, f: u32) -> bool {
    exists|i: int, g: u32, j: int, d: int|
        0 <= i < tables.len() && tables[i].fragments@.contains_key(g) && 0 <= j
            < tables[i].fragments@[g].actors@.len() && 0 <= d
            < tables[i].fragments@[g].actors@[j].dispatcher@.len() && leads_to(
            #[trigger] tables[i].fragments@[g].actors@[j].dispatcher@[d],
            f,
        )
}

/// The dispatcher sends to the fragment without shuffle.
pub open spec fn leads_to(dispatcher: crate::scale::model::Dispatcher, f: u32) -> bool {
    dispatcher.dispatcher_type == DispatcherType::NoShuffle && dispatcher.dispatcher_id as u32 == f
}

spec fn some_edge(edges: Seq<NoShuffleEdge>, f: u32) -> bool {
    exists|k: int| 0 <= k < edges.len() && (#[trigger] edges[k]).downstream_fragment_id == f
}

proof fn lemma_some_edge_add(a: Seq<NoShuffleEdge>, b: Seq<NoShuffleEdge>, f: u32)
    ensures
        some_edge(a + b, f) <==> some_edge(a, f) || some_edge(b, f),
{
    let s = a + b;
    if some_edge(s, f) {
        let k = choose|k: int| 0 <= k < s.len() && (#[trigger] s[k]).downstream_fragment_id == f;
        if k < a.len() {
            assert(a[k].downstream_fragment_id == f);
        } else {
            assert(b[k - a.len()].downstream_fragment_id == f);
        }
    }
    if some_edge(a, f) {
        let k = choose|k: int| 0 <= k < a.len() && (#[trigger] a[k]).downstream_fragment_id == f;
        assert(s[k].downstream_fragment_id == f);
    }
    if some_edge(b, f) {
        let k = choose|k: int| 0 <= k < b.len() && (#[trigger] b[k]).downstream_fragment_id == f;
        assert(s[a.len() + k].downstream_fragment_id == f);
    }
}

proof fn lemma_edge_targets(edges: Seq<NoShuffleEdge>, f: u32)
    ensures
        edge_targets(edges).contains(f) <==> some_edge(edges, f),
    decreases edges.len(),
{
    if edges.len() > 0 {
        lemma_edge_targets(edges.drop_last(), f);
        lemma_some_edge_add(edges.drop_last(), seq![edges.last()], f);
        assert(edges.drop_last() + seq![edges.last()] =~= edges);
        if edges.last().downstream_fragment_id == f {
            assert(seq![edges.last()][0].downstream_fragment_id == f);
        }
    }
}

proof fn lemma_actor_edges(actor: CustomActorInfo, n: nat, f: u32)
    ensures
        some_edge(edges_of_actor(actor, n), f) <==> exists|d: int|
            0 <= d < n && leads_to(#[trigger] actor.dispatcher@[d], f),
    decreases n,
{
    if n > 0 {
        lemma_actor_edges(actor, (n - 1) as nat, f);
        let before = edges_of_actor(actor, (n - 1) as nat);
        let last = actor.dispatcher@[n - 1];
        if last.dispatcher_type == DispatcherType::NoShuffle {
            let e = NoShuffleEdge {
                actor_id: actor.actor_id,
                downstream_actor_id: last.downstream_actor_id@[0],
                downstream_fragment_id: last.dispatcher_id as u32,
            };
            lemma_some_edge_add(before, seq![e], f);
            assert(before + seq![e] =~= before.push(e));
            if e.downstream_fragment_id == f {
                assert(seq![e][0].downstream_fragment_id == f);
                assert(leads_to(actor.dispatcher@[n - 1], f));
            }
        }
        if exists|d: int| 0 <= d < n && leads_to(#[trigger] actor.dispatcher@[d], f) {
            let d = choose|d: int| 0 <= d < n && leads_to(#[trigger] actor.dispatcher@[d], f);
            if d < n - 1 {
                assert(leads_to(actor.dispatcher@[d], f));
            }
        }
    }
}

proof fn lemma_actors_edges(actors: Seq<CustomActorInfo>, f: u32)
    ensures
        some_edge(edges_of_actors(actors), f) <==> exists|j: int, d: int|
            0 <= j < actors.len() && 0 <= d < actors[j].dispatcher@.len() && leads_to(
                #[trigger] actors[j].dispatcher@[d],
                f,
            ),
    decreases actors.len(),
{
    if actors.len() > 0 {
        let front = actors.drop_last();
        let last = actors.last();
        let n = actors.len() - 1;
        lemma_actors_edges(front, f);
        lemma_actor_edges(last, last.dispatcher@.len(), f);
        lemma_some_edge_add(edges_of_actors(front), edges_of_actor(last, last.dispatcher@.len()), f);
        if some_edge(edges_of_actors(front), f) {
            let (j, d) = choose|j: int, d: int|
                0 <= j < front.len() && 0 <= d < front[j].dispatcher@.len() && leads_to(
                    #[trigger] front[j].dispatcher@[d],
                    f,
                );
            assert(leads_to(actors[j].dispatcher@[d], f));
        }
        if some_edge(edges_of_actor(last, last.dispatcher@.len()), f) {
            let d = choose|d: int|
                0 <= d < last.dispatcher@.len() && leads_to(#[trigger] last.dispatcher@[d], f);
            assert(leads_to(actors[n].dispatcher@[d], f));
        }
        if exists|j: int, d: int|
            0 <= j < actors.len() && 0 <= d < actors[j].dispatcher@.len() && leads_to(
                #[trigger] actors[j].dispatcher@[d],
                f,
            ) {
            let (j, d) = choose|j: int, d: int|
                0 <= j < actors.len() && 0 <= d < actors[j].dispatcher@.len() && leads_to(
                    #[trigger] actors[j].dispatcher@[d],
                    f,
                );
            if j < n {
                assert(leads_to(front[j].dispatcher@[d], f));
            } else {
                assert(leads_to(last.dispatcher@[d], f));
            }
        }
    }
}

proof fn lemma_fragments_edges(ids: Seq<u32>, fragments: Map<u32, CustomFragmentInfo>, f: u32)
    ensures
        some_edge(edges_of_fragments(ids, fragments), f) <==> exists|i: int, j: int, d: int|
            0 <= i < ids.len() && 0 <= j < fragments[ids[i]].actors@.len() && 0 <= d
                < fragments[ids[i]].actors@[j].dispatcher@.len() && leads_to(
                #[trigger] fragments[ids[i]].actors@[j].dispatcher@[d],
                f,
            ),
    decreases ids.len(),
{
    if ids.len() > 0 {
        let front = ids.drop_last();
        let n = ids.len() - 1;
        let last = fragments[ids.last()].actors@;
        lemma_fragments_edges(front, fragments, f);
        lemma_actors_edges(last, f);
        lemma_some_edge_add(edges_of_fragments(front, fragments), edges_of_actors(last), f);
        if some_edge(edges_of_fragments(front, fragments), f) {
            let (i, j, d) = choose|i: int, j: int, d: int|
                0 <= i < front.len() && 0 <= j < fragments[front[i]].actors@.len() && 0 <= d
                    < fragments[front[i]].actors@[j].dispatcher@.len() && leads_to(
                    #[trigger] fragments[front[i]].actors@[j].dispatcher@[d],
                    f,
                );
            assert(leads_to(fragments[ids[i]].actors@[j].dispatcher@[d], f));
        }
        if some_edge(edges_of_actors(last), f) {
            let (j, d) = choose|j: int, d: int|
                0 <= j < last.len() && 0 <= d < last[j].dispatcher@.len() && leads_to(
                    #[trigger] last[j].dispatcher@[d],
                    f,
                );
            assert(leads_to(fragments[ids[n]].actors@[j].dispatcher@[d], f));
        }
        if exists|i: int, j: int, d: int|
            0 <= i < ids.len() && 0 <= j < fragments[ids[i]].actors@.len() && 0 <= d
                < fragments[ids[i]].actors@[j].dispatcher@.len() && leads_to(
                #[trigger] fragments[ids[i]].actors@[j].dispatcher@[d],
                f,
            ) {
            let (i, j, d) = choose|i: int, j: int, d: int|
                0 <= i < ids.len() && 0 <= j < fragments[ids[i]].actors@.len() && 0 <= d
                    < fragments[ids[i]].actors@[j].dispatcher@.len() && leads_to(
                    #[trigger] fragments[ids[i]].actors@[j].dispatcher@[d],
                    f,
                );
            if i < n {
                assert(leads_to(fragments[front[i]].actors@[j].dispatcher@[d], f));
            } else {
                assert(leads_to(last[j].dispatcher@[d], f));
            }
        }
    }
}

proof fn lemma_tables_edges(tables: Seq<TableFragments>, f: u32)
    ensures
        some_edge(edges_of(tables), f) <==> led_to(tables, f),
    decreases tables.len(),
{
    if tables.len() > 0 {
        let front = tables.drop_last();
        let n = tables.len() - 1;
        let fragments = tables.last().fragments@;
        lemma_ascending_exists(fragments.dom());
        let ids = ascending_of(fragments.dom());
        lemma_tables_edges(front, f);
        lemma_fragments_edges(ids, fragments, f);
        lemma_some_edge_add(edges_of(front), edges_of_fragments(ids, fragments), f);
        if led_to(front, f) {
            let (i, g, j, d) = choose|i: int, g: u32, j: int, d: int|
                0 <= i < front.len() && front[i].fragments@.contains_key(g) && 0 <= j
                    < front[i].fragments@[g].actors@.len() && 0 <= d
                    < front[i].fragments@[g].actors@[j].dispatcher@.len() && leads_to(
                    #[trigger] front[i].fragments@[g].actors@[j].dispatcher@[d],
                    f,
                );
            assert(leads_to(tables[i].fragments@[g].actors@[j].dispatcher@[d], f));
        }
        if some_edge(edges_of_fragments(ids, fragments), f) {
            let (i, j, d) = choose|i: int, j: int, d: int|
                0 <= i < ids.len() && 0 <= j < fragments[ids[i]].actors@.len() && 0 <= d
                    < fragments[ids[i]].actors@[j].dispatcher@.len() && leads_to(
                    #[trigger] fragments[ids[i]].actors@[j].dispatcher@[d],
                    f,
                );
            assert(ids.to_set().contains(ids[i]));
            assert(leads_to(tables[n].fragments@[ids[i]].actors@[j].dispatcher@[d], f));
        }
        if led_to(tables, f) {
            let (i, g, j, d) = choose|i: int, g: u32, j: int, d: int|
                0 <= i < tables.len() && tables[i].fragments@.contains_key(g) && 0 <= j
                    < tables[i].fragments@[g].actors@.len() && 0 <= d
                    < tables[i].fragments@[g].actors@[j].dispatcher@.len() && leads_to(
                    #[trigger] tables[i].fragments@[g].actors@[j].dispatcher@[d],
                    f,
                );
            if i < n {
                assert(leads_to(front[i].fragments@[g].actors@[j].dispatcher@[d], f));
            } else {
                assert(ids.to_set().contains(g));
                let k = ids.index_of(g);
                assert(leads_to(fragments[ids[k]].actors@[j].dispatcher@[d], f));
            }
        }
    }
}

/// The value of a fragment in the plan is what its resize comes to, and it is untouched where nothing is asked.
spec fn is_resize(
    res: Result<Option<UnitChange>, ScaleError>,
    g: u32,
    before: Map<u32, UnitChange>,
    after: Map<u32, UnitChange>,
) -> bool {
    match res {
        Ok(Some(c)) => after.contains_key(g) && after[g] == c,
        Ok(None) => same_entry(g, before, after),
        Err(_) => false,
    }
}

spec fn same_entry(g: u32, before: Map<u32, UnitChange>, after: Map<u32, UnitChange>) -> bool {
    (after.contains_key(g) <==> before.contains_key(g)) && (before.contains_key(g) ==> after[g]
        == before[g])
}

proof fn lemma_fragment_planned(
    ids: Seq<u32>,
    table: TableFragments,
    targets: Set<u32>,
    statuses: Map<u32, ActorStatus>,
    slots: Map<u32, Set<u32>>,
    parallelism: TableParallelism,
    plan: Map<u32, UnitChange>,
    g: u32,
)
    requires
        plan_fragments(ids, table, targets, statuses, slots, parallelism, plan) is Ok,
    ensures
        ({
            let after = plan_fragments(
                ids,
                table,
                targets,
                statuses,
                slots,
                parallelism,
                plan,
            )->Ok_0;
            if ids.contains(g) && !targets.contains(g) {
                is_resize(
                    fragment_resize(
                        table.table_id,
                        g,
                        &table.fragments@[g],
                        statuses,
                        slots,
                        parallelism,
                    ),
                    g,
                    plan,
                    after,
                )
            } else {
                same_entry(g, plan, after)
            }
        }),
    decreases ids.len(),
{
    if ids.len() > 0 {
        let rest = ids.skip(1);
        assert(ids.contains(g) <==> rest.contains(g) || ids[0] == g) by {
            if ids.contains(g) {
                let i = ids.index_of(g);
                if i > 0 {
                    assert(rest[i - 1] == g);
                }
            }
            if rest.contains(g) {
                assert(ids[rest.index_of(g) + 1] == g);
            }
        }
        if targets.contains(ids[0]) {
            lemma_fragment_planned(rest, table, targets, statuses, slots, parallelism, plan, g);
        } else {
            match fragment_resize(
                table.table_id,
                ids[0],
                &table.fragments@[ids[0]],
                statuses,
                slots,
                parallelism,
            ) {
                Err(_) => {},
                Ok(None) => {
                    lemma_fragment_planned(
                        rest,
                        table,
                        targets,
                        statuses,
                        slots,
                        parallelism,
                        plan,
                        g,
                    );
                },
                Ok(Some(change)) => {
                    lemma_fragment_planned(
                        rest,
                        table,
                        targets,
                        statuses,
                        slots,
                        parallelism,
                        plan.insert(ids[0], change),
                        g,
                    );
                },
            }
        }
    } else {
        assert(!ids.contains(g));
    }
}

proof fn lemma_table_planned(
    ids: Seq<u32>,
    parallelisms: Map<u32, TableParallelism>,
    tables: Seq<TableFragments>,
    targets: Set<u32>,
    slots: Map<u32, Set<u32>>,
    plan: Map<u32, UnitChange>,
    t: u32,
    g: u32,
)
    requires
        plan_tables(ids, parallelisms, tables, targets, slots, plan) is Ok,
        forall|i: int|
            0 <= i < ids.len() && #[trigger] ids[i] != t ==> !table_with(
                tables,
                ids[i],
            ).fragments@.contains_key(g),
        table_with(tables, t).fragments@.contains_key(g),
    ensures
        ({
            let after = plan_tables(ids, parallelisms, tables, targets, slots, plan)->Ok_0;
            let table = table_with(tables, t);
            if ids.contains(t) && !targets.contains(g) {
                is_resize(
                    fragment_resize(
                        table.table_id,
                        g,
                        &table.fragments@[g],
                        statuses_of(tables),
                        slots,
                        parallelisms[t],
                    ),
                    g,
                    plan,
                    after,
                )
            } else {
                same_entry(g, plan, after)
            }
        }),
    decreases ids.len(),
{
    if ids.len() > 0 {
        let rest = ids.skip(1);
        assert(ids.contains(t) <==> rest.contains(t) || ids[0] == t) by {
            if ids.contains(t) {
                let i = ids.index_of(t);
                if i > 0 {
                    assert(rest[i - 1] == t);
                }
            }
            if rest.contains(t) {
                assert(ids[rest.index_of(t) + 1] == t);
            }
        }
        let table = table_with(tables, ids[0]);
        lemma_ascending_exists(table.fragments@.dom());
        let fs = ascending_of(table.fragments@.dom());
        assert(fs.contains(g) <==> table.fragments@.contains_key(g)) by {
            assert(fs.to_set().contains(g) <==> table.fragments@.dom().contains(g));
        }
        let statuses = statuses_of(tables);
        lemma_fragment_planned(fs, table, targets, statuses, slots, parallelisms[ids[0]], plan, g);
        let mid = plan_fragments(
            fs,
            table,
            targets,
            statuses,
            slots,
            parallelisms[ids[0]],
            plan,
        )->Ok_0;
        assert forall|i: int| 0 <= i < rest.len() && #[trigger] rest[i] != t implies !table_with(
            tables,
            rest[i],
        ).fragments@.contains_key(g) by {
            assert(rest[i] == ids[i + 1]);
        }
        lemma_table_planned(rest, parallelisms, tables, targets, slots, mid, t, g);
    } else {
        assert(!ids.contains(t));
    }
}

proof fn lemma_untouched(
    ids: Seq<u32>,
    parallelisms: Map<u32, TableParallelism>,
    tables: Seq<TableFragments>,
    targets: Set<u32>,
    slots: Map<u32, Set<u32>>,
    plan: Map<u32, UnitChange>,
    g: u32,
)
    requires
        plan_tables(ids, parallelisms, tables, targets, slots, plan) is Ok,
        targets.contains(g) || forall|i: int|
            0 <= i < ids.len() ==> !table_with(
                tables,
                #[trigger] ids[i],
            ).fragments@.contains_key(g),
    ensures
        same_entry(g, plan, plan_tables(ids, parallelisms, tables, targets, slots, plan)->Ok_0),
    decreases ids.len(),
{
    if ids.len() > 0 {
        let rest = ids.skip(1);
        let table = table_with(tables, ids[0]);
        lemma_ascending_exists(table.fragments@.dom());
        let fs = ascending_of(table.fragments@.dom());
        assert(fs.contains(g) <==> table.fragments@.contains_key(g)) by {
            assert(fs.to_set().contains(g) <==> table.fragments@.dom().contains(g));
        }
        let statuses = statuses_of(tables);
        lemma_fragment_planned(fs, table, targets, statuses, slots, parallelisms[ids[0]], plan, g);
        let mid = plan_fragments(
            fs,
            table,
            targets,
            statuses,
            slots,
            parallelisms[ids[0]],
            plan,
        )->Ok_0;
        if !targets.contains(g) {
            assert forall|i: int| 0 <= i < rest.len() implies !table_with(
                tables,
                #[trigger] rest[i],
            ).fragments@.contains_key(g) by {
                assert(rest[i] == ids[i + 1]);
            }
        }
        lemma_untouched(rest, parallelisms, tables, targets, slots, mid, g);
    }
}

/// The parallel units that the actors of a fragment are on, going by what the given statuses say.
pub open spec fn units_now(fragment: CustomFragmentInfo, statuses: Map<u32, ActorStatus>) -> Set<u32> {
    Set::new(
        |u: u32|
            exists|j: int|
                0 <= j < fragment.actors@.len()
                    && statuses[(#[trigger] fragment.actors@[j]).actor_id].parallel_unit->Some_0.id
                    == u,
    )
}

/// The statuses are those of the tables, which do not contradict one another.
pub open spec fn all_statuses(tables: Seq<TableFragments>, statuses: Map<u32, ActorStatus>) -> bool {
    forall|i: int, a: u32|
        0 <= i < tables.len() && #[trigger] tables[i].actor_status@.contains_key(a)
            ==> tables[i].actor_status@[a] == statuses[a]
}

proof fn lemma_statuses(tables: Seq<TableFragments>, statuses: Map<u32, ActorStatus>)
    requires
        all_statuses(tables, statuses),
    ensures
        forall|a: u32| #[trigger]
            statuses_of(tables).contains_key(a) ==> statuses_of(tables)[a] == statuses[a],
        forall|i: int, a: u32|
            0 <= i < tables.len() && #[trigger] tables[i].actor_status@.contains_key(a)
                ==> statuses_of(tables).contains_key(a),
    decreases tables.len(),
{
    if tables.len() > 0 {
        let front = tables.drop_last();
        let last = tables.len() - 1;
        assert forall|i: int, a: u32|
            0 <= i < front.len() && #[trigger] front[i].actor_status@.contains_key(
                a,
            ) implies front[i].actor_status@[a] == statuses[a] by {
            assert(tables[i].actor_status@.contains_key(a));
        }
        lemma_statuses(front, statuses);
        assert(tables[last] == tables.last());
        assert forall|i: int, a: u32|
            0 <= i < tables.len() && #[trigger] tables[i].actor_status@.contains_key(
                a,
            ) implies statuses_of(tables).contains_key(a) by {
            if i < last {
                assert(front[i].actor_status@.contains_key(a));
            }
        }
        assert forall|a: u32| #[trigger] statuses_of(tables).contains_key(a) implies statuses_of(
            tables,
        )[a] == statuses[a] by {
            if tables.last().actor_status@.contains_key(a) {
                assert(tables[last].actor_status@.contains_key(a));
            } else {
                assert(statuses_of(front).contains_key(a));
            }
        }
    }
}

/// The parallel units of a fragment after the plan is carried out.
pub open spec fn units_then(
    plan: Map<u32, ParallelUnitReschedule>,
    f: u32,
    current: Set<u32>,
) -> Set<u32> {
    if plan.contains_key(f) {
        current.difference(plan[f].removed_parallel_units@).union(plan[f].added_parallel_units@)
    } else {
        current
    }
}

/// What resizing a fragment comes to. It is afterwards on parallel units of the workers of the policy only. A
/// fragment of a table of fixed parallelism is on that many, or on all where there are fewer; one of an adaptive
/// table is on all; one whose parallelism was set by hand stays as it is; one of single distribution is on one.
pub proof fn lemma_units_then(
    policy: &TableResizePolicy,
    workers: &Vec<WorkerNode>,
    tables: &Vec<TableFragments>,
    plan: BTreeMap<u32, ParallelUnitReschedule>,
    statuses: Map<u32, ActorStatus>,
    t: int,
    f: u32,
)
    requires
        call_ensures(
            generate_table_resize_plan,
            (policy, workers, tables),
            Ok::<BTreeMap<u32, ParallelUnitReschedule>, ScaleError>(plan),
        ),
        workers_apart(workers@),
        slots_countable(units_of_workers(workers@, policy.worker_ids@)),
        all_statuses(tables@, statuses),
        forall|i: int, j: int|
            #![trigger tables@[i], tables@[j]]
            0 <= i < tables@.len() && 0 <= j < tables@.len() && i != j ==> tables@[i].table_id
                != tables@[j].table_id && !(tables@[i].fragments@.contains_key(f)
                && tables@[j].fragments@.contains_key(f)),
        forall|id: u32| #[trigger]
            policy.table_parallelisms@.contains_key(id) ==> exists|i: int|
                0 <= i < tables@.len() && (#[trigger] tables@[i]).table_id == id,
        0 <= t < tables@.len(),
        policy.table_parallelisms@.contains_key(tables@[t].table_id),
        tables@[t].fragments@.contains_key(f),
        forall|j: int|
            0 <= j < tables@[t].fragments@[f].actors@.len()
                ==> tables@[t].actor_status@.contains_key(
                (#[trigger] tables@[t].fragments@[f].actors@[j]).actor_id,
            ),
        !led_to(tables@, f),
    ensures
        ({
            let fragment = tables@[t].fragments@[f];
            let current = units_now(fragment, statuses);
            let available = units_available(workers@, policy.worker_ids@);
            let then_on = units_then(plan@, f, current);
            &&& available.finite()
            &&& available.len() > 0
            &&& if fragment.distribution_type == FragmentDistributionType::Single {
                then_on.subset_of(available) && (current.len() == 1 ==> then_on.len() == 1) && (
                current.subset_of(available) ==> then_on == current)
            } else {
                match policy.table_parallelisms@[tables@[t].table_id] {
                    TableParallelism::Fixed(n) => {
                        &&& then_on.subset_of(available)
                        &&& n <= available.len() ==> then_on.len() == n
                        &&& n > available.len() ==> then_on.len() == available.len() && then_on
                            == available
                    },
                    TableParallelism::Adaptive => then_on == available,
                    TableParallelism::Custom => !plan@.contains_key(f),
                }
            }
            &&& plan@.contains_key(f) ==> {
                &&& plan@[f].removed_parallel_units@.subset_of(current)
                &&& fragment.distribution_type != FragmentDistributionType::Single || (
                current.finite() && current.len() == 1)
                    ==> plan@[f].added_parallel_units@.disjoint(current)
                &&& !(plan@[f].removed_parallel_units@.is_empty()
                    && plan@[f].added_parallel_units@.is_empty())
            }
        }),
{
    let slots = units_of_workers(workers@, policy.worker_ids@);
    let available = units_available(workers@, policy.worker_ids@);
    let table = tables@[t];
    let id = table.table_id;
    let fragment = table.fragments@[f];
    let current = units_now(fragment, statuses);
    let parallelism = policy.table_parallelisms@[id];
    let targets = edge_targets(edges_of(tables@));
    lemma_available_units(workers@, policy.worker_ids@);
    lemma_tables_edges(tables@, f);
    lemma_edge_targets(edges_of(tables@), f);
    lemma_statuses(tables@, statuses);
    assert(current =~= current_units(&fragment, statuses_of(tables@))) by {
        assert forall|j: int| 0 <= j < fragment.actors@.len() implies statuses[(
        #[trigger] fragment.actors@[j]).actor_id] == statuses_of(
            tables@,
        )[fragment.actors@[j].actor_id] by {
            assert(tables@[t].actor_status@.contains_key(
                tables@[t].fragments@[f].actors@[j].actor_id,
            ));
        }
        assert forall|u: u32| current.contains(u) <==> current_units(
            &fragment,
            statuses_of(tables@),
        ).contains(u) by {
            if current.contains(u) {
                let j = choose|j: int|
                    0 <= j < fragment.actors@.len() && statuses[(
                    #[trigger] fragment.actors@[j]).actor_id].parallel_unit->Some_0.id == u;
                assert(statuses_of(
                    tables@,
                )[fragment.actors@[j].actor_id].parallel_unit->Some_0.id == u);
            }
            if current_units(&fragment, statuses_of(tables@)).contains(u) {
                let j = choose|j: int|
                    0 <= j < fragment.actors@.len() && statuses_of(tables@)[(
                    #[trigger] fragment.actors@[j]).actor_id].parallel_unit->Some_0.id == u;
                assert(statuses[fragment.actors@[j].actor_id].parallel_unit->Some_0.id == u);
            }
        }
    }
    lemma_ascending_exists(policy.table_parallelisms@.dom());
    let ids = ascending_of(policy.table_parallelisms@.dom());
    assert(ids.to_set().contains(id));
    assert(table_with(tables@, id) == table) by {
        lemma_table_with(tables@, t, f);
    }
    assert forall|i: int| 0 <= i < ids.len() && #[trigger] ids[i] != id implies !table_with(
        tables@,
        ids[i],
    ).fragments@.contains_key(f) by {
        assert(ids.to_set().contains(ids[i]));
        assert(policy.table_parallelisms@.contains_key(ids[i]));
        let k = choose|k: int| 0 <= k < tables@.len() && (#[trigger] tables@[k]).table_id == ids[i];
        lemma_table_with(tables@, k, f);
        assert(tables@[k].table_id != tables@[t].table_id);
    }
    let empty = Map::<u32, UnitChange>::empty();
    let all = plan_tables(ids, policy.table_parallelisms@, tables@, targets, slots, empty)->Ok_0;
    lemma_table_planned(
        ids,
        policy.table_parallelisms@,
        tables@,
        targets,
        slots,
        empty,
        id,
        f,
    );
    let res = fragment_resize(id, f, &fragment, statuses_of(tables@), slots, parallelism);
    lemma_resized(id, f, &fragment, statuses_of(tables@), slots, parallelism);
    assert(plans_of(plan@) == drop_unchanged(all));
    assert(plan@.contains_key(f) <==> plans_of(plan@).contains_key(f));
    if plan@.contains_key(f) {
        assert(plans_of(plan@)[f] == plan@[f]@);
        assert(drop_unchanged(all).contains_key(f));
        assert(all[f] == plan@[f]@);
    }
    let then_on = units_then(plan@, f, current);
    assert(available.len() > 0) by {
        if available.len() == 0 {
            crate::scale::resized::lemma_available(slots);
            assert(available =~= Set::empty());
        }
    }
    match res {
        Ok(Some(c)) => {
            assert(all.contains_key(f) && all[f] == c);
            if plan@.contains_key(f) {
                assert(then_on =~= units_after(current, c));
            } else {
                assert(!drop_unchanged(all).contains_key(f));
                assert(c.added.is_empty() && c.removed.is_empty());
                assert(units_after(current, c) =~= current);
            }
        },
        Ok(None) => {
            assert(!all.contains_key(f));
            assert(!plan@.contains_key(f));
        },
        Err(_) => {},
    }
    crate::scale::resized::lemma_available(slots);
    if fragment.distribution_type == FragmentDistributionType::Single && current.finite()
        && current.len() == 1 && plan@.contains_key(f) {
        Set::lemma_is_singleton(current);
        assert forall|u: u32| plan@[f].added_parallel_units@.contains(u) implies !current.contains(
            u,
        ) by {
            if current.contains(u) {
                assert(then_on.contains(u));
                assert(current.subset_of(available));
            }
        }
    }
    if fragment.distribution_type != FragmentDistributionType::Single {
        match parallelism {
            TableParallelism::Fixed(n) => {
                if n > available.len() {
                    vstd::set_lib::lemma_subset_equality(then_on, available);
                }
            },
            _ => {},
        }
    }
}

proof fn lemma_table_with(tables: Seq<TableFragments>, t: int, f: u32)
    requires
        0 <= t < tables.len(),
        forall|i: int, j: int|
            #![trigger tables[i], tables[j]]
            0 <= i < tables.len() && 0 <= j < tables.len() && i != j ==> tables[i].table_id
                != tables[j].table_id && !(tables[i].fragments@.contains_key(f)
                && tables[j].fragments@.contains_key(f)),
    ensures
        table_with(tables, tables[t].table_id) == tables[t],
{
    let id = tables[t].table_id;
    let k = choose|k: int| 0 <= k < tables.len() && (#[trigger] tables[k]).table_id == id;
    if k != t {
        assert(tables[k].table_id != tables[t].table_id);
    }
}

/// A plan holds fragments of the tables of the policy only, and no downstream end of an edge without shuffle,
/// which follows its upstream.
pub proof fn lemma_planned_only(
    policy: &TableResizePolicy,
    workers: &Vec<WorkerNode>,
    tables: &Vec<TableFragments>,
    plan: BTreeMap<u32, ParallelUnitReschedule>,
    f: u32,
)
    requires
        call_ensures(
            generate_table_resize_plan,
            (policy, workers, tables),
            Ok::<BTreeMap<u32, ParallelUnitReschedule>, ScaleError>(plan),
        ),
        plan@.contains_key(f),
        forall|id: u32| #[trigger]
            policy.table_parallelisms@.contains_key(id) ==> exists|i: int|
                0 <= i < tables@.len() && (#[trigger] tables@[i]).table_id == id,
    ensures
        !led_to(tables@, f),
        exists|i: int|
            0 <= i < tables@.len() && policy.table_parallelisms@.contains_key(
                (#[trigger] tables@[i]).table_id,
            ) && tables@[i].fragments@.contains_key(f),
{
    let slots = units_of_workers(workers@, policy.worker_ids@);
    let targets = edge_targets(edges_of(tables@));
    lemma_tables_edges(tables@, f);
    lemma_edge_targets(edges_of(tables@), f);
    lemma_ascending_exists(policy.table_parallelisms@.dom());
    let ids = ascending_of(policy.table_parallelisms@.dom());
    let empty = Map::<u32, UnitChange>::empty();
    let all = plan_tables(ids, policy.table_parallelisms@, tables@, targets, slots, empty)->Ok_0;
    assert(plans_of(plan@).contains_key(f));
    assert(drop_unchanged(all).contains_key(f));
    assert(all.contains_key(f));
    if targets.contains(f) || forall|i: int|
        0 <= i < ids.len() ==> !table_with(tables@, #[trigger] ids[i]).fragments@.contains_key(f) {
        lemma_untouched(ids, policy.table_parallelisms@, tables@, targets, slots, empty, f);
        assert(false);
    }
    let i = choose|i: int|
        0 <= i < ids.len() && table_with(tables@, #[trigger] ids[i]).fragments@.contains_key(f);
    assert(ids.to_set().contains(ids[i]));
    assert(policy.table_parallelisms@.contains_key(ids[i]));
    let k = choose|k: int| 0 <= k < tables@.len() && (#[trigger] tables@[k]).table_id == ids[i];
    assert(table_with(tables@, ids[i]) == tables@[k]);
}

proof fn lemma_unschedulable(workers: Seq<WorkerNode>, id: u32)
    ensures
        unschedulable_workers(workers).contains(id) <==> exists|i: int| closed_worker(workers, i, id),
    decreases workers.len(),
{
    if workers.len() > 0 {
        let rest = workers.drop_last();
        let n = workers.len() - 1;
        lemma_unschedulable(rest, id);
        if exists|i: int| closed_worker(rest, i, id) {
            let i = choose|i: int| closed_worker(rest, i, id);
            assert(rest[i] == workers[i]);
            assert(closed_worker(workers, i, id));
        }
        if exists|i: int| closed_worker(workers, i, id) {
            let i = choose|i: int| closed_worker(workers, i, id);
            if i < n {
                assert(rest[i] == workers[i]);
                assert(closed_worker(rest, i, id));
            }
        }
        if unschedulable_workers(workers).contains(id) && !unschedulable_workers(rest).contains(id) {
            assert(closed_worker(workers, n, id));
        }
    }
}

/// The worker has the id, and nothing new is to be placed on it.
pub open spec fn closed_worker(workers: Seq<WorkerNode>, i: int, id: u32) -> bool {
    0 <= i < workers.len() && workers[i].id == id && (workers[i].property matches Some(p)
        && p.is_unschedulable)
}

/// Tables are resized only on workers that something new may be placed on: if the policy names another, the least
/// such worker is told.
pub proof fn lemma_resized_on_open_workers(
    policy: &TableResizePolicy,
    workers: &Vec<WorkerNode>,
    tables: &Vec<TableFragments>,
    res: Result<BTreeMap<u32, ParallelUnitReschedule>, ScaleError>,
    i: int,
    w: u32,
)
    requires
        call_ensures(generate_table_resize_plan, (policy, workers, tables), res),
        policy.worker_ids@.finite(),
    ensures
        policy.worker_ids@.contains(w) && closed_worker(workers@, i, w) ==> (
        res matches Err(ScaleError::UnschedulableWorker { worker_id }) && worker_id <= w
            && policy.worker_ids@.contains(worker_id) && exists|k: int|
            closed_worker(workers@, k, worker_id)),
{
    let ids = ascending_of(policy.worker_ids@);
    let bad = unschedulable_workers(workers@);
    lemma_ascending_exists(policy.worker_ids@);
    lemma_first_in(ids, bad);
    lemma_unschedulable(workers@, w);
    if policy.worker_ids@.contains(w) && closed_worker(workers@, i, w) {
        assert(ids.to_set().contains(w));
        let k = choose|k: int| 0 <= k < ids.len() && ids[k] == w;
        lemma_least_in(ids, bad, k);
        let worker_id = first_in(ids, bad)->Some_0;
        lemma_unschedulable(workers@, worker_id);
        assert(ids.to_set().contains(worker_id));
    }
}

proof fn lemma_least_in(ids: Seq<u32>, bad: Set<u32>, k: int)
    requires
        ascending(ids),
        0 <= k < ids.len(),
        bad.contains(ids[k]),
    ensures
        first_in(ids, bad) matches Some(x) && x <= ids[k],
    decreases ids.len(),
{
    if !bad.contains(ids[0]) {
        let rest = ids.skip(1);
        assert(rest[k - 1] == ids[k]);
        assert(ascending(rest));
        lemma_least_in(rest, bad, k - 1);
    } else if k > 0 {
        assert(ids[0] < ids[k]);
    }
}

} // verus!
