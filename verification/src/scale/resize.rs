//! Resizing of tables to the workers that they may use.
use crate::common::collections::{ascending_of, first_in, lemma_first_from, map_keys, set_to_vec};
use crate::common::worker::WorkerNode;
use crate::scale::checks::{collect_current_units, current_units, placed};
use crate::scale::model::{ActorStatus, CustomActorInfo, CustomFragmentInfo, DispatcherType};
use crate::scale::model::{FragmentDistributionType, ParallelUnitReschedule, ScaleError};
use crate::scale::model::{TableFragments, TableParallelism, TableResizePolicy, UnitChange};
use crate::scale::no_shuffle::plans_of;
use crate::scale::tables::{actors_of, collect_actors, collect_statuses, fragment_valid};
use crate::scale::tables::{lemma_fragments_of, statuses_of, table_valid, tables_valid};
use crate::scale::units::{all_units, collect_all, collect_units_of_workers};
use crate::scale::units::{diff_parallel_unit_change, filter_unschedulable_workers};
use crate::scale::units::{schedule_units_for_slots, scheduled, sets_of, slots_countable};
use crate::scale::units::{unit_diff, units_of_workers, unschedulable_workers};
use std::collections::BTreeMap;
use std::collections::BTreeSet;
use vstd::prelude::*;

verus! {

broadcast use {
    vstd::std_specs::btree::group_btree_axioms,
    vstd::laws_cmp::group_laws_cmp,
};

/// A `NoShuffle` edge of an actor: the actor that it leads to, and the fragment of that actor as
/// the dispatcher names it.
#[derive(Clone, Copy, Debug, PartialEq, Eq, Structural)]
pub struct NoShuffleEdge {
    pub actor_id: u32,
    pub downstream_actor_id: u32,
    pub downstream_fragment_id: u32,
}

/// The `NoShuffle` edges at the first `n` dispatchers of an actor.
pub open spec fn edges_of_actor(actor: CustomActorInfo, n: nat) -> Seq<NoShuffleEdge>
    decreases n,
{
    if n == 0 {
        Seq::empty()
    } else {
        let edges = edges_of_actor(actor, (n - 1) as nat);
        let d = actor.dispatcher@[n - 1];
        if d.dispatcher_type == DispatcherType::NoShuffle {
            edges.push(
                NoShuffleEdge {
                    actor_id: actor.actor_id,
                    downstream_actor_id: d.downstream_actor_id@[0],
                    downstream_fragment_id: d.dispatcher_id as u32,
                },
            )
        } else {
            edges
        }
    }
}

/// The `NoShuffle` edges of actors, actor by actor.
pub open spec fn edges_of_actors(actors: Seq<CustomActorInfo>) -> Seq<NoShuffleEdge>
    decreases actors.len(),
{
    if actors.len() == 0 {
        Seq::empty()
    } else {
        edges_of_actors(actors.drop_last()) + edges_of_actor(
            actors.last(),
            actors.last().dispatcher@.len(),
        )
    }
}

/// The `NoShuffle` edges of fragments, fragment by fragment.
pub open spec fn edges_of_fragments(ids: Seq<u32>, fragments: Map<u32, CustomFragmentInfo>) -> Seq<
    NoShuffleEdge,
>
    decreases ids.len(),
{
    if ids.len() == 0 {
        Seq::empty()
    } else {
        edges_of_fragments(ids.drop_last(), fragments) + edges_of_actors(
            fragments[ids.last()].actors@,
        )
    }
}

/// The `NoShuffle` edges of all jobs.
pub open spec fn edges_of(tables: Seq<TableFragments>) -> Seq<NoShuffleEdge>
    decreases tables.len(),
{
    if tables.len() == 0 {
        Seq::empty()
    } else {
        edges_of(tables.drop_last()) + edges_of_fragments(
            ascending_of(tables.last().fragments@.dom()),
            tables.last().fragments@,
        )
    }
}

/// Every `NoShuffle` dispatcher of the actor has exactly one downstream actor.
pub open spec fn one_downstream(actor: CustomActorInfo) -> bool {
    forall|k: int|
        0 <= k < actor.dispatcher@.len() && (#[trigger] actor.dispatcher@[k]).dispatcher_type
            == DispatcherType::NoShuffle ==> actor.dispatcher@[k].downstream_actor_id@.len() == 1
}

/// Every `NoShuffle` dispatcher of every actor has exactly one downstream actor.
pub open spec fn all_one_downstream(tables: Seq<TableFragments>) -> bool {
    forall|i: int, f: u32, j: int|
        0 <= i < tables.len() && tables[i].fragments@.contains_key(f) && 0 <= j
            < tables[i].fragments@[f].actors@.len() ==> one_downstream(
            #[trigger] tables[i].fragments@[f].actors@[j],
        )
}

fn push_actor_edges(res: &mut Vec<NoShuffleEdge>, actor: &CustomActorInfo)
    requires
        one_downstream(*actor),
    ensures
        final(res)@ == old(res)@ + edges_of_actor(*actor, actor.dispatcher@.len()),
{
    let ghost res0 = res@;
    let mut k: usize = 0;
    assert(res0 + edges_of_actor(*actor, 0) =~= res0);
    while k < actor.dispatcher.len()
        invariant
            k <= actor.dispatcher.len(),
            one_downstream(*actor),
            res@ == res0 + edges_of_actor(*actor, k as nat),
        decreases actor.dispatcher.len() - k,
    {
        let d = &actor.dispatcher[k];
        let ghost before = res@;
        if d.dispatcher_type == DispatcherType::NoShuffle {
            let edge = NoShuffleEdge {
                actor_id: actor.actor_id,
                downstream_actor_id: d.downstream_actor_id[0],
                downstream_fragment_id: #[verifier::truncate] (d.dispatcher_id as u32),
            };
            res.push(edge);
            assert(res@ =~= res0 + edges_of_actor(*actor, k as nat).push(edge));
        }
        k = k + 1;
    }
}

/// The `NoShuffle` edges of all jobs.
fn collect_edges(tables: &Vec<TableFragments>) -> (res: Vec<NoShuffleEdge>)
    requires
        all_one_downstream(tables@),
    ensures
        res@ == edges_of(tables@),
{
    let mut res: Vec<NoShuffleEdge> = Vec::new();
    let mut i: usize = 0;
    assert(tables@.take(0) =~= Seq::<TableFragments>::empty());
    while i < tables.len()
        invariant
            i <= tables.len(),
            all_one_downstream(tables@),
            res@ == edges_of(tables@.take(i as int)),
        decreases tables.len() - i,
    {
        let fragments = &tables[i].fragments;
        let ids = map_keys(fragments);
        let ghost res0 = res@;
        let mut f: usize = 0;
        assert(ids@.take(0) =~= Seq::<u32>::empty());
        assert(res0 + edges_of_fragments(ids@.take(0), fragments@) =~= res0);
        while f < ids.len()
            invariant
                f <= ids.len(),
                i < tables.len(),
                fragments == tables@[i as int].fragments,
                ids@.to_set() == fragments@.dom(),
                all_one_downstream(tables@),
                res@ == res0 + edges_of_fragments(ids@.take(f as int), fragments@),
            decreases ids.len() - f,
        {
            assert(ids@.to_set().contains(ids@[f as int]));
            let fragment = fragments.get(&ids[f]).unwrap();
            let ghost res1 = res@;
            let mut j: usize = 0;
            assert(fragment.actors@.take(0) =~= Seq::<CustomActorInfo>::empty());
            assert(res1 + edges_of_actors(fragment.actors@.take(0)) =~= res1);
            while j < fragment.actors.len()
                invariant
                    j <= fragment.actors.len(),
                    i < tables.len(),
                    f < ids.len(),
                    fragments == tables@[i as int].fragments,
                    fragments@.contains_key(ids@[f as int]),
                    fragment == fragments@[ids@[f as int]],
                    all_one_downstream(tables@),
                    res@ == res1 + edges_of_actors(fragment.actors@.take(j as int)),
                decreases fragment.actors.len() - j,
            {
                assert(one_downstream(
                    tables@[i as int].fragments@[ids@[f as int]].actors@[j as int],
                ));
                push_actor_edges(&mut res, &fragment.actors[j]);
                assert(fragment.actors@.take(j + 1).drop_last() =~= fragment.actors@.take(j as int));
                assert(res@ =~= res1 + edges_of_actors(fragment.actors@.take(j + 1)));
                j = j + 1;
            }
            assert(fragment.actors@.take(j as int) =~= fragment.actors@);
            assert(ids@.take(f + 1).drop_last() =~= ids@.take(f as int));
            assert(res@ =~= res0 + edges_of_fragments(ids@.take(f + 1), fragments@));
            f = f + 1;
        }
        assert(ids@.take(f as int) =~= ids@);
        assert(tables@.take(i + 1).drop_last() =~= tables@.take(i as int));
        i = i + 1;
    }
    assert(tables@.take(i as int) =~= tables@);
    res
}

/// The first edge that leads to an actor that is not known.
pub open spec fn first_dangling(edges: Seq<NoShuffleEdge>, known: Set<u32>) -> Option<
    NoShuffleEdge,
>
    decreases edges.len(),
{
    if edges.len() == 0 {
        None
    } else if !known.contains(edges[0].downstream_actor_id) {
        Some(edges[0])
    } else {
        first_dangling(edges.skip(1), known)
    }
}

/// The fragments that edges lead to.
pub open spec fn edge_targets(edges: Seq<NoShuffleEdge>) -> Set<u32>
    decreases edges.len(),
{
    if edges.len() == 0 {
        Set::empty()
    } else {
        edge_targets(edges.drop_last()).insert(edges.last().downstream_fragment_id)
    }
}

/// The number of parallel units that a table of fixed parallelism gets.
pub open spec fn capped(n: int, available: int) -> int {
    if n > available {
        available
    } else {
        n
    }
}

/// What a fragment gains and loses when its table is resized.
pub open spec fn fragment_resize(
    table_id: u32,
    fragment_id: u32,
    fragment: &CustomFragmentInfo,
    statuses: Map<u32, ActorStatus>,
    slots: Map<u32, Set<u32>>,
    parallelism: TableParallelism,
) -> Result<Option<UnitChange>, ScaleError> {
    let available = all_units(slots);
    let current = current_units(fragment, statuses);
    if available.is_empty() {
        Err(ScaleError::NoSchedulableParallelUnit { fragment_id })
    } else if fragment.distribution_type == FragmentDistributionType::Single {
        // A fragment with one actor moves only if its place is gone.
        if current.subset_of(available) {
            Ok(None)
        } else {
            match scheduled(slots, 1, table_id) {
                Ok(picked) => if all_units(picked).len() == 1 {
                    Ok(Some(UnitChange { added: all_units(picked), removed: current }))
                } else {
                    Err(ScaleError::NoSingleTarget { fragment_id })
                },
                Err(e) => Err(e),
            }
        }
    } else {
        match parallelism {
            TableParallelism::Adaptive => Ok(Some(unit_diff(current, available))),
            TableParallelism::Fixed(n) => match scheduled(
                slots,
                capped(n as int, available.len() as int),
                table_id,
            ) {
                Ok(picked) => Ok(Some(unit_diff(current, all_units(picked)))),
                Err(e) => Err(e),
            },
            TableParallelism::Custom => Ok(None),
        }
    }
}

/// The plan with the given fragments of a table resized; a downstream end of a `NoShuffle`
/// relation is left to its upstream.
pub open spec fn plan_fragments(
    ids: Seq<u32>,
    table: TableFragments,
    targets: Set<u32>,
    statuses: Map<u32, ActorStatus>,
    slots: Map<u32, Set<u32>>,
    parallelism: TableParallelism,
    plan: Map<u32, UnitChange>,
) -> Result<Map<u32, UnitChange>, ScaleError>
    decreases ids.len(),
{
    if ids.len() == 0 {
        Ok(plan)
    } else if targets.contains(ids[0]) {
        plan_fragments(ids.skip(1), table, targets, statuses, slots, parallelism, plan)
    } else {
        match fragment_resize(
            table.table_id,
            ids[0],
            &table.fragments@[ids[0]],
            statuses,
            slots,
            parallelism,
        ) {
            Err(e) => Err(e),
            Ok(None) => plan_fragments(
                ids.skip(1),
                table,
                targets,
                statuses,
                slots,
                parallelism,
                plan,
            ),
            Ok(Some(change)) => plan_fragments(
                ids.skip(1),
                table,
                targets,
                statuses,
                slots,
                parallelism,
                plan.insert(ids[0], change),
            ),
        }
    }
}

/// The job with the given id.
pub open spec fn table_with(tables: Seq<TableFragments>, id: u32) -> TableFragments {
    tables[choose|i: int| 0 <= i < tables.len() && (#[trigger] tables[i]).table_id == id]
}

/// The plan with the given tables resized.
pub open spec fn plan_tables(
    ids: Seq<u32>,
    parallelisms: Map<u32, TableParallelism>,
    tables: Seq<TableFragments>,
    targets: Set<u32>,
    slots: Map<u32, Set<u32>>,
    plan: Map<u32, UnitChange>,
) -> Result<Map<u32, UnitChange>, ScaleError>
    decreases ids.len(),
{
    if ids.len() == 0 {
        Ok(plan)
    } else {
        let table = table_with(tables, ids[0]);
        match plan_fragments(
            ascending_of(table.fragments@.dom()),
            table,
            targets,
            statuses_of(tables),
            slots,
            parallelisms[ids[0]],
            plan,
        ) {
            Err(e) => Err(e),
            Ok(plan) => plan_tables(
                ids.skip(1),
                parallelisms,
                tables,
                targets,
                slots,
                plan,
            ),
        }
    }
}

/// The change is none.
pub open spec fn no_change(change: UnitChange) -> bool {
    change.added.is_empty() && change.removed.is_empty()
}

/// The plan without the fragments that do not change.
pub open spec fn drop_unchanged(plan: Map<u32, UnitChange>) -> Map<u32, UnitChange> {
    Map::new(|f: u32| plan.contains_key(f) && !no_change(plan[f]), |f: u32| plan[f])
}

/// The plan that resizes the tables of a policy.
pub open spec fn table_resize_plan(
    worker_ids: Set<u32>,
    parallelisms: Map<u32, TableParallelism>,
    workers: Seq<WorkerNode>,
    tables: Seq<TableFragments>,
) -> Result<Map<u32, UnitChange>, ScaleError> {
    match first_in(ascending_of(worker_ids), unschedulable_workers(workers)) {
        Some(worker_id) => Err(ScaleError::UnschedulableWorker { worker_id }),
        None => match first_dangling(edges_of(tables), actors_of(tables).dom()) {
            Some(edge) => Err(
                ScaleError::DownstreamActorNotFound {
                    actor_id: edge.actor_id,
                    downstream_actor_id: edge.downstream_actor_id,
                },
            ),
            None => match plan_tables(
                ascending_of(parallelisms.dom()),
                parallelisms,
                tables,
                edge_targets(edges_of(tables)),
                units_of_workers(workers, worker_ids),
                Map::empty(),
            ) {
                Ok(plan) => Ok(drop_unchanged(plan)),
                Err(e) => Err(e),
            },
        },
    }
}

/// The job has a fragment, each of its fragments an actor, and a fragment of single distribution
/// runs in one place.
pub open spec fn resizable(
    table: TableFragments,
    targets: Set<u32>,
    statuses: Map<u32, ActorStatus>,
) -> bool {
    table.fragments@.len() > 0 && forall|f: u32| #[trigger]
        table.fragments@.contains_key(f) && !targets.contains(f)
            ==> table.fragments@[f].actors@.len() > 0 && (table.fragments@[f].distribution_type
            == FragmentDistributionType::Single ==> current_units(
            &table.fragments@[f],
            statuses,
        ).len() == 1)
}

/// There is a job for every table that is to be resized, and the jobs have different ids.
pub open spec fn tables_resizable(
    tables: Seq<TableFragments>,
    parallelisms: Map<u32, TableParallelism>,
) -> bool {
    &&& forall|i: int, j: int|
        #![trigger tables[i], tables[j]]
        0 <= i < j < tables.len() ==> tables[i].table_id != tables[j].table_id
    &&& forall|t: u32| #[trigger]
        parallelisms.contains_key(t) ==> exists|i: int|
            0 <= i < tables.len() && (#[trigger] tables[i]).table_id == t && resizable(
                tables[i],
                edge_targets(edges_of(tables)),
                statuses_of(tables),
            )
}

/// Resizes one fragment.
fn resize_fragment(
    table_id: u32,
    fragment_id: u32,
    fragment: &CustomFragmentInfo,
    statuses: &BTreeMap<u32, ActorStatus>,
    slots: &BTreeMap<u32, BTreeSet<u32>>,
    available: &BTreeSet<u32>,
    parallelism: TableParallelism,
) -> (res: Result<Option<ParallelUnitReschedule>, ScaleError>)
    requires
        placed(fragment, statuses@),
        fragment.actors@.len() > 0,
        fragment.distribution_type == FragmentDistributionType::Single ==> current_units(
            fragment,
            statuses@,
        ).len() == 1,
        available@ == all_units(sets_of(slots@)),
        slots_countable(sets_of(slots@)),
        available@.len() <= u32::MAX,
    ensures
        fragment_resize(
            table_id,
            fragment_id,
            fragment,
            statuses@,
            sets_of(slots@),
            parallelism,
        ) == (match res {
            Ok(Some(change)) => Ok::<Option<UnitChange>, ScaleError>(Some(change@)),
            Ok(None) => Ok::<Option<UnitChange>, ScaleError>(None),
            Err(e) => Err::<Option<UnitChange>, ScaleError>(e),
        }),
{
    if available.is_empty() {
        return Err(ScaleError::NoSchedulableParallelUnit { fragment_id });
    }
    let current = collect_current_units(fragment, statuses);
    if fragment.distribution_type() == FragmentDistributionType::Single {
        let units = set_to_vec(&current);
        let single: u32 = units[0];
        proof {
            assert(units@ =~= seq![single]);
            assert(units@.to_set().contains(units@[0]));
            assert forall|u: u32| current@.contains(u) implies u == single by {
                assert(units@.to_set().contains(u));
                assert(units@[units@.index_of(u)] == u);
            }
            assert(current@.subset_of(available@) <==> available@.contains(single));
        }
        if available.contains(&single) {
            return Ok(None);
        }
        let picked = match schedule_units_for_slots(slots, 1, table_id) {
            Ok(picked) => picked,
            Err(e) => {
                return Err(e);
            },
        };
        let chosen = collect_all(&picked);
        if chosen.len() != 1 {
            return Err(ScaleError::NoSingleTarget { fragment_id });
        }
        return Ok(
            Some(
                ParallelUnitReschedule {
                    added_parallel_units: chosen,
                    removed_parallel_units: current,
                },
            ),
        );
    }
    match parallelism {
        TableParallelism::Adaptive => Ok(Some(diff_parallel_unit_change(&current, available))),
        TableParallelism::Fixed(n) => {
            let wanted: usize = if n > available.len() {
                available.len()
            } else {
                n
            };
            let picked = match schedule_units_for_slots(slots, wanted, table_id) {
                Ok(picked) => picked,
                Err(e) => {
                    return Err(e);
                },
            };
            let target = collect_all(&picked);
            Ok(Some(diff_parallel_unit_change(&current, &target)))
        },
        TableParallelism::Custom => Ok(None),
    }
}

/// Resizes the fragments of one table.
fn resize_table(
    table: &TableFragments,
    targets: &BTreeSet<u32>,
    statuses: &BTreeMap<u32, ActorStatus>,
    slots: &BTreeMap<u32, BTreeSet<u32>>,
    available: &BTreeSet<u32>,
    parallelism: TableParallelism,
    plan: &mut BTreeMap<u32, ParallelUnitReschedule>,
) -> (res: Result<(), ScaleError>)
    requires
        table_valid(*table),
        resizable(*table, targets@, statuses@),
        forall|f: u32| #[trigger]
            table.fragments@.contains_key(f) ==> placed(&table.fragments@[f], statuses@),
        available@ == all_units(sets_of(slots@)),
        slots_countable(sets_of(slots@)),
        available@.len() <= u32::MAX,
    ensures
        plan_fragments(
            ascending_of(table.fragments@.dom()),
            *table,
            targets@,
            statuses@,
            sets_of(slots@),
            parallelism,
            plans_of(old(plan)@),
        ) == (match res {
            Ok(_) => Ok::<Map<u32, UnitChange>, ScaleError>(plans_of(final(plan)@)),
            Err(e) => Err::<Map<u32, UnitChange>, ScaleError>(e),
        }),
{
    let ids = map_keys(&table.fragments);
    let ghost sets = sets_of(slots@);
    let ghost p0 = plans_of(plan@);
    let mut i: usize = 0;
    assert(ids@.skip(0) =~= ids@);
    while i < ids.len()
        invariant
            i <= ids.len(),
            ids@.to_set() == table.fragments@.dom(),
            ids@ == ascending_of(table.fragments@.dom()),
            p0 == plans_of(old(plan)@),
            sets == sets_of(slots@),
            table_valid(*table),
            resizable(*table, targets@, statuses@),
            forall|f: u32| #[trigger]
                table.fragments@.contains_key(f) ==> placed(&table.fragments@[f], statuses@),
            available@ == all_units(sets),
            slots_countable(sets),
            available@.len() <= u32::MAX,
            plan_fragments(ids@, *table, targets@, statuses@, sets, parallelism, p0)
                == plan_fragments(
                ids@.skip(i as int),
                *table,
                targets@,
                statuses@,
                sets,
                parallelism,
                plans_of(plan@),
            ),
        decreases ids.len() - i,
    {
        let id: u32 = ids[i];
        assert(ids@.to_set().contains(ids@[i as int]));
        assert(ids@.skip(i as int)[0] == id);
        assert(ids@.skip(i as int).skip(1) =~= ids@.skip(i + 1));
        if !targets.contains(&id) {
            let fragment = table.fragments.get(&id).unwrap();
            let ghost plan0 = plan@;
            match resize_fragment(
                table.table_id,
                id,
                fragment,
                statuses,
                slots,
                available,
                parallelism,
            ) {
                Ok(Some(change)) => {
                    plan.insert(id, change);
                    assert(plans_of(plan@) =~= plans_of(plan0).insert(id, change@));
                },
                Ok(None) => {},
                Err(e) => {
                    return Err(e);
                },
            }
        }
        i = i + 1;
    }
    assert(ids@.skip(i as int) =~= Seq::<u32>::empty());
    Ok(())
}

/// The plan without the fragments that do not change.
pub fn retain_changed(plan: &mut BTreeMap<u32, ParallelUnitReschedule>)
    ensures
        plans_of(final(plan)@) == drop_unchanged(plans_of(old(plan)@)),
{
    let ids = map_keys(plan);
    let ghost p0 = plans_of(plan@);
    let mut i: usize = 0;
    while i < ids.len()
        invariant
            i <= ids.len(),
            ids@.to_set() == p0.dom(),
            forall|f: u32|
                (#[trigger] plan@.contains_key(f) <==> p0.contains_key(f) && !(ids@.take(
                    i as int,
                ).to_set().contains(f) && no_change(p0[f]))) && (plan@.contains_key(f)
                    ==> plan@[f]@ == p0[f]),
        decreases ids.len() - i,
    {
        let id: u32 = ids[i];
        assert(ids@.to_set().contains(ids@[i as int]));
        proof {
            assert(ids@.take(i + 1) =~= ids@.take(i as int).push(id));
            crate::common::collections::lemma_to_set_push(ids@.take(i as int), id);
        }
        let drop: bool = match plan.get(&id) {
            Some(change) => change.added_parallel_units.is_empty()
                && change.removed_parallel_units.is_empty(),
            None => false,
        };
        if drop {
            plan.remove(&id);
        }
        i = i + 1;
    }
    assert(ids@.take(i as int) =~= ids@);
    assert(plans_of(plan@) =~= drop_unchanged(p0));
}

/// Where the first edge that leads to an actor that is not known stands.
fn find_dangling(edges: &Vec<NoShuffleEdge>, actors: &BTreeMap<u32, &CustomActorInfo>) -> (res:
    Option<NoShuffleEdge>)
    ensures
        res == first_dangling(edges@, actors@.dom()),
{
    let mut i: usize = 0;
    assert(edges@.skip(0) =~= edges@);
    while i < edges.len()
        invariant
            i <= edges.len(),
            first_dangling(edges@, actors@.dom()) == first_dangling(
                edges@.skip(i as int),
                actors@.dom(),
            ),
        decreases edges.len() - i,
    {
        assert(edges@.skip(i as int)[0] == edges@[i as int]);
        assert(edges@.skip(i as int).skip(1) =~= edges@.skip(i + 1));
        if !actors.contains_key(&edges[i].downstream_actor_id) {
            return Some(edges[i]);
        }
        i = i + 1;
    }
    assert(edges@.skip(i as int) =~= Seq::<NoShuffleEdge>::empty());
    None
}

/// The fragments that edges lead to.
fn collect_targets(edges: &Vec<NoShuffleEdge>) -> (res: BTreeSet<u32>)
    ensures
        res@ == edge_targets(edges@),
{
    let mut res: BTreeSet<u32> = BTreeSet::new();
    let mut i: usize = 0;
    assert(edges@.take(0) =~= Seq::<NoShuffleEdge>::empty());
    while i < edges.len()
        invariant
            i <= edges.len(),
            res@ == edge_targets(edges@.take(i as int)),
        decreases edges.len() - i,
    {
        res.insert(edges[i].downstream_fragment_id);
        assert(edges@.take(i + 1).drop_last() =~= edges@.take(i as int));
        i = i + 1;
    }
    assert(edges@.take(i as int) =~= edges@);
    res
}

/// The first element of the set, in ascending order, that is also in the other set.
pub fn first_common(set: &BTreeSet<u32>, other: &BTreeSet<u32>) -> (res: Option<u32>)
    ensures
        res == first_in(ascending_of(set@), other@),
{
    let v = set_to_vec(set);
    let mut i: usize = 0;
    while i < v.len()
        invariant
            i <= v.len(),
            v@ == ascending_of(set@),
            forall|j: int| 0 <= j < i ==> !other@.contains(#[trigger] v@[j]),
        decreases v.len() - i,
    {
        if other.contains(&v[i]) {
            proof {
                lemma_first_from(v@, other@, i as int);
                assert(v@.skip(i as int)[0] == v@[i as int]);
            }
            return Some(v[i]);
        }
        i = i + 1;
    }
    proof {
        lemma_first_from(v@, other@, i as int);
        assert(v@.skip(i as int) =~= Seq::<u32>::empty());
    }
    None
}

/// The job with the given id.
fn find_table(tables: &Vec<TableFragments>, id: u32) -> (res: &TableFragments)
    requires
        exists|i: int| 0 <= i < tables@.len() && (#[trigger] tables@[i]).table_id == id,
        forall|i: int, j: int|
            #![trigger tables@[i], tables@[j]]
            0 <= i < j < tables@.len() ==> tables@[i].table_id != tables@[j].table_id,
    ensures
        *res == table_with(tables@, id),
        exists|i: int|
            0 <= i < tables@.len() && *res == #[trigger] tables@[i] && tables@[i].table_id == id,
{
    let mut i: usize = 0;
    while tables[i].table_id != id
        invariant
            i < tables.len(),
            exists|k: int| 0 <= k < tables@.len() && (#[trigger] tables@[k]).table_id == id,
            forall|k: int| 0 <= k < i ==> (#[trigger] tables@[k]).table_id != id,
        decreases tables.len() - i,
    {
        i = i + 1;
    }
    proof {
        let k = choose|k: int| 0 <= k < tables@.len() && (#[trigger] tables@[k]).table_id == id;
        assert(tables@[i as int].table_id == id);
        assert(k == i) by {
            if k < i {
                assert(tables@[k].table_id != tables@[i as int].table_id);
            } else if i < k {
                assert(tables@[i as int].table_id != tables@[k].table_id);
            }
        }
    }
    &tables[i]
}

/// The plan that resizes the tables of the policy to the parallel units of its workers.
///
/// Fragments that do not change are not in the plan, and neither are downstream ends of
/// `NoShuffle` relations, which follow their upstream.
pub fn generate_table_resize_plan(
    policy: &TableResizePolicy,
    workers: &Vec<WorkerNode>,
    tables: &Vec<TableFragments>,
) -> (res: Result<BTreeMap<u32, ParallelUnitReschedule>, ScaleError>)
    requires
        tables_valid(tables@),
        all_one_downstream(tables@),
        tables_resizable(tables@, policy.table_parallelisms@),
        slots_countable(units_of_workers(workers@, policy.worker_ids@)),
        all_units(units_of_workers(workers@, policy.worker_ids@)).len() <= u32::MAX,
    ensures
        table_resize_plan(
            policy.worker_ids@,
            policy.table_parallelisms@,
            workers@,
            tables@,
        ) == (match res {
            Ok(plan) => Ok::<Map<u32, UnitChange>, ScaleError>(plans_of(plan@)),
            Err(e) => Err::<Map<u32, UnitChange>, ScaleError>(e),
        }),
        res matches Ok(plan) ==> forall|f: u32| #[trigger]
            plan@.contains_key(f) ==> !no_change(plan@[f]@),
{
    let unschedulable_worker_ids = filter_unschedulable_workers(workers);
    if let Some(worker_id) = first_common(&policy.worker_ids, &unschedulable_worker_ids) {
        return Err(ScaleError::UnschedulableWorker { worker_id });
    }
    let worker_parallel_units = collect_units_of_workers(workers, Some(&policy.worker_ids));
    let ghost slots = sets_of(worker_parallel_units@);
    let edges = collect_edges(tables);
    let actors = collect_actors(tables);
    if let Some(edge) = find_dangling(&edges, &actors) {
        return Err(
            ScaleError::DownstreamActorNotFound {
                actor_id: edge.actor_id,
                downstream_actor_id: edge.downstream_actor_id,
            },
        );
    }
    let targets = collect_targets(&edges);
    let statuses = collect_statuses(tables);
    let available = collect_all(&worker_parallel_units);
    let mut target_plan: BTreeMap<u32, ParallelUnitReschedule> = BTreeMap::new();
    let ids = map_keys(&policy.table_parallelisms);
    let ghost pars = policy.table_parallelisms@;
    assert(plans_of(target_plan@) =~= Map::<u32, UnitChange>::empty());
    assert(ids@.skip(0) =~= ids@);
    let mut i: usize = 0;
    while i < ids.len()
        invariant
            i <= ids.len(),
            pars == policy.table_parallelisms@,
            ids@.to_set() == pars.dom(),
            ids@ == ascending_of(pars.dom()),
            first_in(ascending_of(policy.worker_ids@), unschedulable_workers(workers@)) is None,
            first_dangling(edges_of(tables@), actors_of(tables@).dom()) is None,
            slots == units_of_workers(workers@, policy.worker_ids@),
            tables_valid(tables@),
            tables_resizable(tables@, pars),
            slots == sets_of(worker_parallel_units@),
            slots_countable(slots),
            available@ == all_units(slots),
            available@.len() <= u32::MAX,
            targets@ == edge_targets(edges_of(tables@)),
            statuses@ == statuses_of(tables@),
            plan_tables(ids@, pars, tables@, targets@, slots, Map::empty()) == plan_tables(
                ids@.skip(i as int),
                pars,
                tables@,
                targets@,
                slots,
                plans_of(target_plan@),
            ),
        decreases ids.len() - i,
    {
        let id: u32 = ids[i];
        assert(ids@.to_set().contains(ids@[i as int]));
        assert(pars.contains_key(id));
        assert(ids@.skip(i as int)[0] == id);
        assert(ids@.skip(i as int).skip(1) =~= ids@.skip(i + 1));
        let parallelism: TableParallelism = *policy.table_parallelisms.get(&id).unwrap();
        let table = find_table(tables, id);
        proof {
            lemma_table_placed(tables@, *table);
        }
        if let Err(e) = resize_table(
            table,
            &targets,
            &statuses,
            &worker_parallel_units,
            &available,
            parallelism,
            &mut target_plan,
        ) {
            return Err(e);
        }
        i = i + 1;
    }
    assert(ids@.skip(i as int) =~= Seq::<u32>::empty());
    let ghost full = plans_of(target_plan@);
    retain_changed(&mut target_plan);
    assert forall|f: u32| #[trigger] target_plan@.contains_key(f) implies !no_change(
        target_plan@[f]@,
    ) by {
        assert(plans_of(target_plan@).contains_key(f));
        assert(plans_of(target_plan@)[f] == drop_unchanged(full)[f]);
    }
    Ok(target_plan)
}

/// The actors of a job are placed.
proof fn lemma_table_placed(tables: Seq<TableFragments>, table: TableFragments)
    requires
        tables_valid(tables),
        exists|i: int| 0 <= i < tables.len() && table == #[trigger] tables[i],
    ensures
        table_valid(table),
        forall|f: u32| #[trigger]
            table.fragments@.contains_key(f) ==> placed(
                &table.fragments@[f],
                statuses_of(tables),
            ),
    decreases tables.len(),
{
    let k = choose|i: int| 0 <= i < tables.len() && table == #[trigger] tables[i];
    let t0 = tables.drop_last();
    let l = tables.len() - 1;
    assert(tables[l] == tables.last());
    assert(tables_valid(t0));
    lemma_fragments_of(tables);
    if k == l {
        assert forall|f: u32| #[trigger] table.fragments@.contains_key(f) implies placed(
            &table.fragments@[f],
            statuses_of(tables),
        ) by {
            assert(fragment_valid(table, f, table.fragments@[f]));
        }
    } else {
        assert(t0[k] == table);
        lemma_table_placed(t0, table);
        assert forall|f: u32| #[trigger] table.fragments@.contains_key(f) implies placed(
            &table.fragments@[f],
            statuses_of(tables),
        ) by {
            assert(placed(&table.fragments@[f], statuses_of(t0)));
        }
    }
}

} // verus!
