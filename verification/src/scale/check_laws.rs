//! When a reschedule is accepted, and what control over the parallelism decides, said of the units and workers.
use crate::common::collections::{ascending, ascending_of, first_in, lemma_ascending_exists};
use crate::common::collections::{lemma_ascending_len, lemma_first_in};
use crate::common::worker::{ParallelUnit, WorkerNode};
use crate::scale::checks::{bad_additions, collect_units, current_units, first_refused, judge};
use crate::scale::checks::{add_units, find_refused, units_from, verdict};
use crate::scale::context::RescheduleContext;
use crate::scale::control::{actor_ids, created_parallelisms, created_parallelisms_of};
use crate::scale::control::{decide_parallelism_control, first_batch_plan, migrating};
use crate::scale::control::{schedulable_workers, schedulable_workers_of, source_changes};
use crate::scale::control::{drops_actor, is_neighbour, moves_splits, split_migrations, touches};
use crate::scale::control::{up_down_stream_fragments, ControlDecision};
use crate::scale::control::SplitMigration;
use crate::scale::assemble::Reschedule;
use crate::scale::model::{ActorStatus, CustomFragmentInfo, FragmentDistributionType};
use crate::scale::model::{ParallelUnitReschedule, ScaleError, TableFragments, TableParallelism};
use crate::scale::model::{TableResizePolicy, TableState, UnitChange};
use crate::scale::no_shuffle::plans_of;
use crate::scale::resize::generate_table_resize_plan;
use std::collections::BTreeMap;
use std::collections::BTreeSet;
use vstd::prelude::*;

verus! {

broadcast use {vstd::std_specs::btree::group_btree_axioms, vstd::laws_cmp::group_laws_cmp};

/// Some actor of the fragment is on the parallel unit.
pub open spec fn is_on(
    fragment: CustomFragmentInfo,
    statuses: Map<u32, ActorStatus>,
    u: u32,
) -> bool {
    exists|j: int|
        0 <= j < fragment.actors@.len() && statuses[(
        #[trigger] fragment.actors@[j]).actor_id].parallel_unit->Some_0.id == u
}

/// The plan takes units only that the fragment is on, and adds units only that belong to a worker and that the
/// fragment is not on or leaves.
pub open spec fn units_in_order(
    plan: ParallelUnitReschedule,
    fragment: CustomFragmentInfo,
    statuses: Map<u32, ActorStatus>,
    owners: Map<u32, u32>,
) -> bool {
    &&& forall|u: u32| #[trigger]
        plan.removed_parallel_units@.contains(u) ==> is_on(fragment, statuses, u)
    &&& forall|u: u32| #[trigger]
        plan.added_parallel_units@.contains(u) ==> owners.contains_key(u) && (is_on(
            fragment,
            statuses,
            u,
        ) ==> plan.removed_parallel_units@.contains(u))
}

/// When the plan of a fragment goes ahead, and what becomes of the others: the first thing that is wrong is
/// named. A plan that goes ahead leaves a hash-distributed fragment on at least one parallel unit, and a fragment
/// of another kind on as many as before.
pub proof fn lemma_judged(
    fragment_id: u32,
    plan: &ParallelUnitReschedule,
    fragments: &BTreeMap<u32, &CustomFragmentInfo>,
    states: &BTreeMap<u32, TableState>,
    statuses: &BTreeMap<u32, ActorStatus>,
    targets: &BTreeSet<u32>,
    owners: &BTreeMap<u32, u32>,
    res: Result<(), ScaleError>,
)
    requires
        call_ensures(
            judge,
            (fragment_id, plan, fragments, states, statuses, targets, owners),
            res,
        ),
        plan.added_parallel_units@.finite(),
        plan.removed_parallel_units@.finite(),
        current_units(fragments@[fragment_id], statuses@).finite(),
    ensures
        ({
            let fragment = *fragments@[fragment_id];
            let current = Set::new(|u: u32| is_on(fragment, statuses@, u));
            let added = plan.added_parallel_units@;
            let removed = plan.removed_parallel_units@;
            let after = current.difference(removed).union(added);
            let known = fragments@.contains_key(fragment_id);
            let created = states@[fragment_id] == TableState::Created;
            &&& !known ==> res == Err::<(), ScaleError>(
                ScaleError::FragmentNotFound { fragment_id },
            )
            &&& known && !created ==> res == Err::<(), ScaleError>(
                ScaleError::TableNotCreated { fragment_id, state: states@[fragment_id] },
            )
            &&& known && created && targets@.contains(fragment_id) ==> res == Err::<
                (),
                ScaleError,
            >(ScaleError::NoShuffleDownstream { fragment_id })
            &&& known && created && !targets@.contains(fragment_id) ==> {
                let in_order = units_in_order(*plan, fragment, statuses@, owners@);
                let is_hash = fragment.distribution_type == FragmentDistributionType::Hash;
                &&& res is Ok <==> in_order && (if is_hash {
                    current.len() + added.len() > removed.len()
                } else {
                    added.len() == removed.len()
                })
                &&& in_order && is_hash && res is Err ==> res == Err::<(), ScaleError>(
                    ScaleError::RemovesAllParallelUnits { fragment_id },
                )
                &&& in_order && !is_hash && res is Err ==> res == Err::<(), ScaleError>(
                    ScaleError::SingleOnlyMigrates { fragment_id },
                )
                &&& res matches Err(
                    ScaleError::NoActorOnParallelUnit { fragment_id: f, parallel_unit_id },
                ) ==> f == fragment_id && removed.contains(parallel_unit_id) && !is_on(
                    fragment,
                    statuses@,
                    parallel_unit_id,
                )
                &&& res matches Err(
                    ScaleError::ParallelUnitNotAvailable { parallel_unit_id },
                ) ==> added.contains(parallel_unit_id) && !owners@.contains_key(parallel_unit_id)
                &&& res matches Err(
                    ScaleError::ParallelUnitInUse { fragment_id: f, parallel_unit_id },
                ) ==> f == fragment_id && added.contains(parallel_unit_id) && is_on(
                    fragment,
                    statuses@,
                    parallel_unit_id,
                ) && !removed.contains(parallel_unit_id)
                &&& res is Ok && is_hash ==> after.len() > 0
                &&& res is Ok && !is_hash ==> after.len() == current.len()
            }
        }),
{
    let fragment = *fragments@[fragment_id];
    let current = Set::new(|u: u32| is_on(fragment, statuses@, u));
    let added = plan.added_parallel_units@;
    let removed = plan.removed_parallel_units@;
    let now = current_units(fragments@[fragment_id], statuses@);
    assert(current =~= now);
    lemma_ascending_exists(added);
    lemma_ascending_exists(removed);
    let gone = ascending_of(removed);
    let come = ascending_of(added);
    let missing = now.complement();
    let bad = bad_additions(plan@, now, owners@);
    lemma_first_in(gone, missing);
    lemma_first_in(come, bad);
    let in_order = units_in_order(*plan, fragment, statuses@, owners@);
    assert(in_order <==> first_in(gone, missing) is None && first_in(come, bad) is None) by {
        match first_in(gone, missing) {
            Some(u) => {
                assert(gone.to_set().contains(u));
                assert(removed.contains(u) && !is_on(fragment, statuses@, u));
            },
            None => {
                match first_in(come, bad) {
                    Some(u) => {
                        assert(come.to_set().contains(u));
                        assert(added.contains(u));
                    },
                    None => {
                        assert forall|u: u32| #[trigger] removed.contains(u) implies is_on(
                            fragment,
                            statuses@,
                            u,
                        ) by {
                            assert(gone.to_set().contains(u));
                            let i = gone.index_of(u);
                            assert(!missing.contains(gone[i]));
                        }
                        assert forall|u: u32| #[trigger] added.contains(
                            u,
                        ) implies owners@.contains_key(u) && (is_on(fragment, statuses@, u)
                            ==> removed.contains(u)) by {
                            assert(come.to_set().contains(u));
                            let i = come.index_of(u);
                            assert(!bad.contains(come[i]));
                        }
                    },
                }
            },
        }
    }
    match first_in(gone, missing) {
        Some(u) => {
            assert(gone.to_set().contains(u));
        },
        None => {},
    }
    match first_in(come, bad) {
        Some(u) => {
            assert(come.to_set().contains(u));
        },
        None => {},
    }
    if in_order {
        let rest = current.difference(removed);
        assert(removed.subset_of(current));
        assert(rest.disjoint(added));
        vstd::set_lib::lemma_set_disjoint_lens(rest, added);
        assert(rest.disjoint(removed));
        assert(rest.union(removed) =~= current);
        vstd::set_lib::lemma_set_disjoint_lens(rest, removed);
    }
}

/// Of several plans the first that does not go ahead, in the order of the fragments, decides; and if all go
/// ahead, nothing is refused.
pub proof fn lemma_first_refused_decides(
    reschedule: &BTreeMap<u32, ParallelUnitReschedule>,
    fragments: &BTreeMap<u32, &CustomFragmentInfo>,
    states: &BTreeMap<u32, TableState>,
    statuses: &BTreeMap<u32, ActorStatus>,
    targets: &BTreeSet<u32>,
    owners: &BTreeMap<u32, u32>,
    res: Option<ScaleError>,
    f: u32,
    one: Result<(), ScaleError>,
)
    requires
        call_ensures(
            find_refused,
            (reschedule, fragments, states, statuses, targets, owners),
            res,
        ),
        reschedule@.contains_key(f),
        call_ensures(
            judge,
            (f, &reschedule@[f], fragments, states, statuses, targets, owners),
            one,
        ),
    ensures
        res is None ==> one is Ok,
        (forall|g: u32, r: Result<(), ScaleError>|
            reschedule@.contains_key(g) && g < f && #[trigger] call_ensures(
                judge,
                (g, &reschedule@[g], fragments, states, statuses, targets, owners),
                r,
            ) ==> r is Ok) && (forall|g: u32|
            reschedule@.contains_key(g) && g < f ==> exists|r: Result<(), ScaleError>| #[trigger]
                call_ensures(
                    judge,
                    (g, &reschedule@[g], fragments, states, statuses, targets, owners),
                    r,
                )) && one is Err ==> res == Some(one->Err_0),
{
    let plans = plans_of(reschedule@);
    lemma_ascending_exists(reschedule@.dom());
    let ids = ascending_of(reschedule@.dom());
    assert(ids.to_set().contains(f));
    let n = ids.index_of(f);
    assert(plans[f] == reschedule@[f]@);
    if (forall|g: u32, r: Result<(), ScaleError>|
        reschedule@.contains_key(g) && g < f && #[trigger] call_ensures(
            judge,
            (g, &reschedule@[g], fragments, states, statuses, targets, owners),
            r,
        ) ==> r is Ok) && (forall|g: u32|
        reschedule@.contains_key(g) && g < f ==> exists|r: Result<(), ScaleError>| #[trigger]
            call_ensures(
                judge,
                (g, &reschedule@[g], fragments, states, statuses, targets, owners),
                r,
            )) && one is Err {
        assert forall|i: int| 0 <= i < n implies verdict(
            #[trigger] ids[i],
            plans[ids[i]],
            fragments@,
            states@,
            statuses@,
            targets@,
            owners@,
        ) is Ok by {
            let g = ids[i];
            assert(ids.to_set().contains(g));
            assert(ids[n] == f);
            assert(g < f);
            let r = choose|r: Result<(), ScaleError>| #[trigger]
                call_ensures(
                    judge,
                    (g, &reschedule@[g], fragments, states, statuses, targets, owners),
                    r,
                );
            assert(plans[g] == reschedule@[g]@);
        }
        lemma_refused_at(
            ids,
            plans,
            fragments@,
            states@,
            statuses@,
            targets@,
            owners@,
            n,
        );
    }
}

proof fn lemma_refused_at(
    ids: Seq<u32>,
    plans: Map<u32, UnitChange>,
    fragments: Map<u32, &CustomFragmentInfo>,
    states: Map<u32, TableState>,
    statuses: Map<u32, ActorStatus>,
    targets: Set<u32>,
    owners: Map<u32, u32>,
    n: int,
)
    requires
        0 <= n < ids.len(),
        forall|i: int|
            0 <= i < n ==> verdict(
                #[trigger] ids[i],
                plans[ids[i]],
                fragments,
                states,
                statuses,
                targets,
                owners,
            ) is Ok,
        verdict(ids[n], plans[ids[n]], fragments, states, statuses, targets, owners) is Err,
    ensures
        first_refused(ids, plans, fragments, states, statuses, targets, owners) == Some(
            verdict(ids[n], plans[ids[n]], fragments, states, statuses, targets, owners)->Err_0,
        ),
    decreases ids.len(),
{
    if n > 0 {
        let rest = ids.skip(1);
        assert(ids[0] == ids[0]);
        assert(verdict(
            ids[0],
            plans[ids[0]],
            fragments,
            states,
            statuses,
            targets,
            owners,
        ) is Ok);
        assert forall|i: int| 0 <= i < n - 1 implies verdict(
            #[trigger] rest[i],
            plans[rest[i]],
            fragments,
            states,
            statuses,
            targets,
            owners,
        ) is Ok by {
            assert(rest[i] == ids[i + 1]);
        }
        lemma_refused_at(rest, plans, fragments, states, statuses, targets, owners, n - 1);
    }
}

proof fn lemma_add_units(m: Map<u32, u32>, units: Seq<ParallelUnit>, w: u32, u: u32)
    ensures
        ({
            let own = exists|p: int| 0 <= p < units.len() && (#[trigger] units[p]).id == u;
            let after = add_units(m, units, w);
            &&& after.contains_key(u) <==> own || m.contains_key(u)
            &&& own ==> after[u] == w
            &&& !own && m.contains_key(u) ==> after[u] == m[u]
        }),
    decreases units.len(),
{
    if units.len() > 0 {
        let front = units.drop_last();
        let n = units.len() - 1;
        lemma_add_units(m, front, w, u);
        assert(units[n] == units.last());
        if exists|p: int| 0 <= p < front.len() && (#[trigger] front[p]).id == u {
            let p = choose|p: int| 0 <= p < front.len() && (#[trigger] front[p]).id == u;
            assert(units[p].id == u);
        }
        if exists|p: int| 0 <= p < units.len() && (#[trigger] units[p]).id == u {
            let p = choose|p: int| 0 <= p < units.len() && (#[trigger] units[p]).id == u;
            if p < n {
                assert(front[p].id == u);
            }
        }
    }
}

/// The worker has the parallel unit, and it is one that is not to be scheduled if only those count.
pub open spec fn offers(worker: WorkerNode, only_unschedulable: bool, u: u32) -> bool {
    &&& only_unschedulable ==> (worker.property matches Some(p) && p.is_unschedulable)
    &&& exists|p: int|
        0 <= p < worker.parallel_units@.len() && (#[trigger] worker.parallel_units@[p]).id == u
}

proof fn lemma_units_from(
    ids: Seq<u32>,
    workers: Map<u32, &WorkerNode>,
    only_unschedulable: bool,
    u: u32,
)
    ensures
        ({
            let m = units_from(ids, workers, only_unschedulable);
            &&& m.contains_key(u) <==> exists|i: int|
                0 <= i < ids.len() && offers(
                    *workers[#[trigger] ids[i]],
                    only_unschedulable,
                    u,
                )
            &&& m.contains_key(u) ==> ids.contains(m[u]) && offers(
                *workers[m[u]],
                only_unschedulable,
                u,
            )
        }),
    decreases ids.len(),
{
    if ids.len() > 0 {
        let front = ids.drop_last();
        let n = ids.len() - 1;
        lemma_units_from(front, workers, only_unschedulable, u);
        let before = units_from(front, workers, only_unschedulable);
        let worker = workers[ids.last()];
        lemma_add_units(before, worker.parallel_units@, ids.last(), u);
        assert(ids[n] == ids.last());
        if before.contains_key(u) {
            let i = choose|i: int|
                0 <= i < front.len() && offers(
                    *workers[#[trigger] front[i]],
                    only_unschedulable,
                    u,
                );
            assert(ids[i] == front[i]);
            assert(ids[front.index_of(before[u])] == before[u]);
        }
        if exists|i: int|
            0 <= i < ids.len() && offers(*workers[#[trigger] ids[i]], only_unschedulable, u) {
            let i = choose|i: int|
                0 <= i < ids.len() && offers(*workers[#[trigger] ids[i]], only_unschedulable, u);
            if i < n {
                assert(front[i] == ids[i]);
            }
        }
    }
}

/// A parallel unit belongs to a worker that has it; one that no worker has belongs to none.
pub proof fn lemma_unit_belongs(
    workers: &BTreeMap<u32, &WorkerNode>,
    only_unschedulable: bool,
    owners: BTreeMap<u32, u32>,
    u: u32,
)
    requires
        call_ensures(collect_units, (workers, only_unschedulable), owners),
    ensures
        owners@.contains_key(u) <==> exists|w: u32| #[trigger]
            workers@.contains_key(w) && offers(*workers@[w], only_unschedulable, u),
        owners@.contains_key(u) ==> workers@.contains_key(owners@[u]) && offers(
            *workers@[owners@[u]],
            only_unschedulable,
            u,
        ),
{
    lemma_ascending_exists(workers@.dom());
    let ids = ascending_of(workers@.dom());
    lemma_units_from(ids, workers@, only_unschedulable, u);
    if owners@.contains_key(u) {
        assert(ids.to_set().contains(owners@[u]));
    }
    if exists|w: u32| #[trigger]
        workers@.contains_key(w) && offers(*workers@[w], only_unschedulable, u) {
        let w = choose|w: u32| #[trigger]
            workers@.contains_key(w) && offers(*workers@[w], only_unschedulable, u);
        assert(ids.to_set().contains(w));
        let i = ids.index_of(w);
        assert(offers(*workers@[ids[i]], only_unschedulable, u));
    }
}

proof fn lemma_migrating(fs: Seq<u32>, sources: Set<u32>, f: u32)
    requires
        ascending(fs),
    ensures
        migrating(fs, sources).contains(f) <==> fs.contains(f) && sources.contains(f),
        ascending(migrating(fs, sources)),
        fs.len() > 0 ==> forall|i: int|
            0 <= i < migrating(fs, sources).len() ==> migrating(fs, sources)[i] <= fs.last(),
    decreases fs.len(),
{
    if fs.len() > 0 {
        let front = fs.drop_last();
        lemma_migrating(front, sources, f);
        let before = migrating(front, sources);
        let now = migrating(fs, sources);
        assert(fs[fs.len() - 1] == fs.last());
        if front.len() > 0 {
            assert(front.last() == fs[fs.len() - 2]);
        }
        if fs.contains(f) && fs.last() != f {
            let i = fs.index_of(f);
            assert(front[i] == f);
        }
        if front.contains(f) {
            assert(fs[front.index_of(f)] == f);
        }
        if sources.contains(fs.last()) {
            assert(now[before.len() as int] == fs.last());
            if before.contains(f) {
                assert(now[before.index_of(f)] == f);
            }
        }
    } else {
        assert(!fs.contains(f));
        assert(!migrating(fs, sources).contains(f));
    }
}

/// Splits move for the rescheduled fragments that read a source, each once: from all actors that the fragment
/// had to all that it has afterwards.
pub proof fn lemma_splits_move(
    reschedules: &BTreeMap<u32, ParallelUnitReschedule>,
    ctx: &RescheduleContext,
    after: &BTreeMap<u32, BTreeMap<u32, u32>>,
    res: Vec<SplitMigration>,
    f: u32,
    i: int,
    a: u32,
)
    requires
        call_ensures(split_migrations, (reschedules, ctx, after), res),
    ensures
        (exists|k: int| 0 <= k < res@.len() && (#[trigger] res@[k]).fragment_id == f)
            <==> reschedules@.contains_key(f) && ctx.stream_source_fragment_ids@.contains(f),
        forall|j: int, k: int|
            0 <= j < k < res@.len() ==> (#[trigger] res@[j]).fragment_id < (
            #[trigger] res@[k]).fragment_id,
        0 <= i < res@.len() ==> {
            let had = ctx.fragment_map@[res@[i].fragment_id].actors@;
            &&& res@[i].prev_actor_ids@.len() == had.len()
            &&& forall|j: int|
                0 <= j < had.len() ==> #[trigger] res@[i].prev_actor_ids@[j] == had[j].actor_id
            &&& res@[i].curr_actor_ids@.contains(a)
                <==> after@[res@[i].fragment_id]@.contains_key(a)
            &&& ascending(res@[i].curr_actor_ids@)
        },
{
    lemma_ascending_exists(reschedules@.dom());
    let ids = ascending_of(reschedules@.dom());
    let fs = migrating(ids, ctx.stream_source_fragment_ids@);
    lemma_migrating(ids, ctx.stream_source_fragment_ids@, f);
    assert(ids.contains(f) <==> reschedules@.contains_key(f)) by {
        assert(ids.to_set().contains(f) <==> reschedules@.dom().contains(f));
    }
    if fs.contains(f) {
        let k = fs.index_of(f);
        assert(res@[k].fragment_id == f);
    }
    if exists|k: int| 0 <= k < res@.len() && (#[trigger] res@[k]).fragment_id == f {
        let k = choose|k: int| 0 <= k < res@.len() && (#[trigger] res@[k]).fragment_id == f;
        assert(fs[k] == f);
    }
    if 0 <= i < res@.len() {
        let now = after@[fs[i]]@;
        assert(res@[i].fragment_id == fs[i]);
        lemma_ascending_exists(now.dom());
        assert(res@[i].curr_actor_ids@.to_set().contains(a) <==> now.dom().contains(a));
        assert(res@[i].prev_actor_ids@ == actor_ids(ctx.fragment_map@[fs[i]].actors@));
    }
}

/// What sources are told after reschedules: the fragments with splits, and the actors that went from these
/// fragments and from no others.
pub proof fn lemma_sources_told(
    reschedules: &BTreeMap<u32, Reschedule>,
    res: (BTreeSet<u32>, BTreeSet<u32>),
    f: u32,
    a: u32,
    s: u32,
)
    requires
        call_ensures(source_changes, (reschedules,), res),
    ensures
        reschedules@.contains_key(f) && reschedules@[f].actor_splits@.contains_key(s)
            ==> res.0@.contains(f),
        res.0@.contains(f) ==> reschedules@.contains_key(f) && exists|x: u32|
            reschedules@[f].actor_splits@.contains_key(x),
        reschedules@.contains_key(f) && reschedules@[f].actor_splits@.contains_key(s)
            && reschedules@[f].removed_actors@.contains(a) ==> res.1@.contains(a),
        res.1@.contains(a) ==> exists|g: u32|
            res.0@.contains(g) && #[trigger] reschedules@[g].removed_actors@.contains(a),
{
    if reschedules@.contains_key(f) && reschedules@[f].actor_splits@.contains_key(s) {
        assert(reschedules@[f].actor_splits@.dom().contains(s));
        assert(moves_splits(reschedules@, f));
        if reschedules@[f].removed_actors@.contains(a) {
            assert(drops_actor(reschedules@, a));
        }
    }
    if res.0@.contains(f) {
        assert(moves_splits(reschedules@, f));
        let d = reschedules@[f].actor_splits@.dom();
        assert(!(d =~= Set::empty()));
        let x = choose|x: u32| d.contains(x);
        assert(reschedules@[f].actor_splits@.contains_key(x));
    }
    if res.1@.contains(a) {
        assert(drops_actor(reschedules@, a));
        let g = choose|g: u32| #[trigger]
            moves_splits(reschedules@, g) && reschedules@[g].removed_actors@.contains(a);
        assert(res.0@.contains(g));
        assert(reschedules@[g].removed_actors@.contains(a));
    }
}

/// The fragments around reschedules are those that send to one of the rescheduled ones and those that merge its
/// rows.
pub proof fn lemma_around(reschedules: &BTreeMap<u32, Reschedule>, res: BTreeSet<u32>, f: u32, k: int, x: u32)
    requires
        call_ensures(up_down_stream_fragments, (reschedules,), res),
    ensures
        reschedules@.contains_key(f) && 0 <= k
            < reschedules@[f].upstream_fragment_dispatcher_ids@.len() ==> res@.contains(
            reschedules@[f].upstream_fragment_dispatcher_ids@[k].0,
        ),
        reschedules@.contains_key(f) && 0 <= k < reschedules@[f].downstream_fragment_ids@.len()
            ==> res@.contains(reschedules@[f].downstream_fragment_ids@[k]),
        res@.contains(x) ==> exists|g: u32, j: int|
            #![trigger reschedules@[g].upstream_fragment_dispatcher_ids@[j]]
            #![trigger reschedules@[g].downstream_fragment_ids@[j]]
            reschedules@.contains_key(g) && (0 <= j
                < reschedules@[g].upstream_fragment_dispatcher_ids@.len()
                && reschedules@[g].upstream_fragment_dispatcher_ids@[j].0 == x || 0 <= j
                < reschedules@[g].downstream_fragment_ids@.len()
                && reschedules@[g].downstream_fragment_ids@[j] == x),
{
    if reschedules@.contains_key(f) && 0 <= k
        < reschedules@[f].upstream_fragment_dispatcher_ids@.len() {
        let y = reschedules@[f].upstream_fragment_dispatcher_ids@[k].0;
        assert(touches(reschedules@[f], y));
        assert(is_neighbour(reschedules@, y));
    }
    if reschedules@.contains_key(f) && 0 <= k < reschedules@[f].downstream_fragment_ids@.len() {
        let y = reschedules@[f].downstream_fragment_ids@[k];
        assert(reschedules@[f].downstream_fragment_ids@.contains(y));
        assert(touches(reschedules@[f], y));
        assert(is_neighbour(reschedules@, y));
    }
    if res@.contains(x) {
        assert(is_neighbour(reschedules@, x));
        let g = choose|g: u32| #[trigger] reschedules@.contains_key(g) && touches(
            reschedules@[g],
            x,
        );
        if reschedules@[g].downstream_fragment_ids@.contains(x) {
            let j = reschedules@[g].downstream_fragment_ids@.index_of(x);
            assert(reschedules@[g].downstream_fragment_ids@[j] == x);
        } else {
            let j = choose|j: int|
                0 <= j < reschedules@[g].upstream_fragment_dispatcher_ids@.len() && (
                #[trigger] reschedules@[g].upstream_fragment_dispatcher_ids@[j]).0 == x;
            assert(reschedules@[g].upstream_fragment_dispatcher_ids@[j].0 == x);
        }
    }
}

proof fn lemma_created_of(tables: Seq<TableFragments>, t: u32)
    requires
        forall|i: int, j: int|
            #![trigger tables[i], tables[j]]
            0 <= i < j < tables.len() ==> tables[i].table_id != tables[j].table_id,
    ensures
        ({
            let m = created_parallelisms_of(tables);
            &&& m.contains_key(t) <==> exists|i: int|
                0 <= i < tables.len() && (#[trigger] tables[i]).table_id == t && tables[i].state
                    == TableState::Created
            &&& forall|i: int|
                0 <= i < tables.len() && (#[trigger] tables[i]).table_id == t && tables[i].state
                    == TableState::Created ==> m[t] == tables[i].assigned_parallelism
        }),
    decreases tables.len(),
{
    if tables.len() > 0 {
        let front = tables.drop_last();
        let n = tables.len() - 1;
        assert forall|i: int, j: int|
            #![trigger front[i], front[j]]
            0 <= i < j < front.len() implies front[i].table_id != front[j].table_id by {
            assert(tables[i] == front[i] && tables[j] == front[j]);
        }
        lemma_created_of(front, t);
        assert(tables[n] == tables.last());
        let m = created_parallelisms_of(tables);
        if created_parallelisms_of(front).contains_key(t) {
            let i = choose|i: int|
                0 <= i < front.len() && (#[trigger] front[i]).table_id == t && front[i].state
                    == TableState::Created;
            assert(tables[i] == front[i]);
        }
        assert forall|i: int|
            0 <= i < tables.len() && (#[trigger] tables[i]).table_id == t && tables[i].state
                == TableState::Created implies m.contains_key(t) && m[t]
            == tables[i].assigned_parallelism by {
            if i < n {
                assert(front[i] == tables[i]);
                assert(tables[i].table_id != tables[n].table_id);
            }
        }
    }
}

/// Only jobs that are created are looked at, each with the parallelism that it is assigned.
pub proof fn lemma_created_jobs(
    tables: &Vec<TableFragments>,
    res: BTreeMap<u32, TableParallelism>,
    t: u32,
)
    requires
        call_ensures(created_parallelisms, (tables,), res),
        forall|i: int, j: int|
            #![trigger tables@[i], tables@[j]]
            0 <= i < j < tables@.len() ==> tables@[i].table_id != tables@[j].table_id,
    ensures
        res@.contains_key(t) <==> exists|i: int|
            0 <= i < tables@.len() && (#[trigger] tables@[i]).table_id == t && tables@[i].state
                == TableState::Created,
        forall|i: int|
            0 <= i < tables@.len() && (#[trigger] tables@[i]).table_id == t && tables@[i].state
                == TableState::Created ==> res@[t] == tables@[i].assigned_parallelism,
{
    lemma_created_of(tables@, t);
}

proof fn lemma_schedulable(workers: Seq<WorkerNode>, w: u32)
    ensures
        schedulable_workers_of(workers).contains(w) <==> exists|i: int|
            0 <= i < workers.len() && (#[trigger] workers[i]).id == w && !(
            workers[i].property matches Some(p) && p.is_unschedulable),
    decreases workers.len(),
{
    if workers.len() > 0 {
        let front = workers.drop_last();
        let n = workers.len() - 1;
        lemma_schedulable(front, w);
        assert(workers[n] == workers.last());
        if schedulable_workers_of(front).contains(w) {
            let i = choose|i: int|
                0 <= i < front.len() && (#[trigger] front[i]).id == w && !(
                front[i].property matches Some(p) && p.is_unschedulable);
            assert(workers[i] == front[i]);
        }
        if exists|i: int|
            0 <= i < workers.len() && (#[trigger] workers[i]).id == w && !(
            workers[i].property matches Some(p) && p.is_unschedulable) {
            let i = choose|i: int|
                0 <= i < workers.len() && (#[trigger] workers[i]).id == w && !(
                workers[i].property matches Some(p) && p.is_unschedulable);
            if i < n {
                assert(front[i] == workers[i]);
            }
        }
    }
}

/// New actors may be placed on the workers that are not marked otherwise, and on no others.
pub proof fn lemma_schedulable_workers(workers: &Vec<WorkerNode>, res: BTreeSet<u32>, w: u32)
    requires
        call_ensures(schedulable_workers, (workers,), res),
    ensures
        res@.contains(w) <==> exists|i: int|
            0 <= i < workers@.len() && (#[trigger] workers@[i]).id == w && !(
            workers@[i].property matches Some(p) && p.is_unschedulable),
{
    lemma_schedulable(workers@, w);
}

/// While jobs are created in the background nothing is done. Otherwise, where all jobs make one batch, what is
/// done is the plan that resizes all of them on the workers that may be used: it is carried out if it changes
/// something, and nothing is done if not.
pub proof fn lemma_decided_by_plan(
    background_jobs: &Vec<u32>,
    workers: &Vec<WorkerNode>,
    tables: &Vec<TableFragments>,
    parallelisms: &BTreeMap<u32, TableParallelism>,
    batch_size: usize,
    res: Result<ControlDecision, ScaleError>,
    policy: &TableResizePolicy,
    plan: Result<BTreeMap<u32, ParallelUnitReschedule>, ScaleError>,
    usable: BTreeSet<u32>,
)
    requires
        call_ensures(
            decide_parallelism_control,
            (background_jobs, workers, tables, parallelisms, batch_size),
            res,
        ),
        call_ensures(schedulable_workers, (workers,), usable),
        policy.worker_ids@ == usable@,
        policy.table_parallelisms@ == parallelisms@,
        call_ensures(generate_table_resize_plan, (policy, workers, tables), plan),
        parallelisms@.dom().len() > 0,
        batch_size == 0 || batch_size >= parallelisms@.dom().len(),
    ensures
        background_jobs@.len() > 0 ==> res matches Ok(ControlDecision::Retry),
        background_jobs@.len() == 0 ==> match plan {
            Err(e) => res matches Err(err) && err == e,
            Ok(p) => if p@.dom().is_empty() {
                res matches Ok(ControlDecision::Rest)
            } else {
                res matches Ok(ControlDecision::Reschedule(q)) && plans_of(q@) == plans_of(p@)
            },
        },
{
    lemma_ascending_exists(parallelisms@.dom());
    let ids = ascending_of(parallelisms@.dom());
    let size = if batch_size == 0 {
        ids.len()
    } else {
        batch_size as nat
    };
    assert(ids.take(ids.len() as int) =~= ids);
    assert(parallelisms@.restrict(ids.to_set()) =~= parallelisms@);
    match plan {
        Ok(p) => {
            assert(plans_of(p@).dom() =~= p@.dom());
            if p@.dom().is_empty() {
                let none = ids.skip(ids.len() as int);
                assert(none.len() == 0);
                assert(first_batch_plan(
                    none,
                    size,
                    usable@,
                    parallelisms@,
                    workers@,
                    tables@,
                ) == Ok::<Option<Map<u32, UnitChange>>, ScaleError>(None));
            }
        },
        Err(_) => {},
    }
}

/// Batches are taken in the order of the jobs: where the plan of the first batch changes something, it is
/// carried out, and an error of it is the error.
pub proof fn lemma_decided_by_first_batch(
    background_jobs: &Vec<u32>,
    workers: &Vec<WorkerNode>,
    tables: &Vec<TableFragments>,
    parallelisms: &BTreeMap<u32, TableParallelism>,
    batch_size: usize,
    res: Result<ControlDecision, ScaleError>,
    policy: &TableResizePolicy,
    plan: Result<BTreeMap<u32, ParallelUnitReschedule>, ScaleError>,
    usable: BTreeSet<u32>,
    batch: Seq<u32>,
)
    requires
        call_ensures(
            decide_parallelism_control,
            (background_jobs, workers, tables, parallelisms, batch_size),
            res,
        ),
        background_jobs@.len() == 0,
        call_ensures(schedulable_workers, (workers,), usable),
        0 < batch_size <= parallelisms@.dom().len(),
        batch.len() == batch_size,
        ascending(batch),
        forall|i: int| 0 <= i < batch.len() ==> parallelisms@.contains_key(#[trigger] batch[i]),
        forall|t: u32| #[trigger]
            parallelisms@.contains_key(t) && !batch.contains(t) ==> t > batch.last(),
        policy.worker_ids@ == usable@,
        policy.table_parallelisms@ == parallelisms@.restrict(batch.to_set()),
        call_ensures(generate_table_resize_plan, (policy, workers, tables), plan),
    ensures
        match plan {
            Err(e) => res matches Err(err) && err == e,
            Ok(p) => !p@.dom().is_empty() ==> (res matches Ok(ControlDecision::Reschedule(q))
                && plans_of(q@) == plans_of(p@)),
        },
{
    lemma_ascending_exists(parallelisms@.dom());
    let ids = ascending_of(parallelisms@.dom());
    let n = batch_size as int;
    assert(ids.take(n) =~= batch) by {
        lemma_smallest(ids, batch);
    }
    match plan {
        Ok(p) => {
            assert(plans_of(p@).dom() =~= p@.dom());
        },
        Err(_) => {},
    }
}

proof fn lemma_smallest(ids: Seq<u32>, batch: Seq<u32>)
    requires
        ascending(ids),
        ascending(batch),
        0 < batch.len() <= ids.len(),
        forall|i: int| 0 <= i < batch.len() ==> ids.to_set().contains(#[trigger] batch[i]),
        forall|t: u32| #[trigger]
            ids.to_set().contains(t) && !batch.contains(t) ==> t > batch.last(),
    ensures
        ids.take(batch.len() as int) == batch,
{
    let n = batch.len() as int;
    let front = ids.take(n);
    assert(ascending(front));
    assert forall|x: u32| batch.to_set().contains(x) <==> front.to_set().contains(x) by {
        if batch.contains(x) {
            let b = batch.index_of(x);
            assert(ids.to_set().contains(batch[b]));
            let k = ids.index_of(x);
            lemma_too_many(ids, batch, k);
            assert(front[k] == x);
        }
        if front.contains(x) && !batch.contains(x) {
            let k = front.index_of(x);
            assert(ids[k] == x);
            assert(ids.to_set().contains(x));
            assert(x > batch.last());
            let last = batch.last();
            assert(batch[batch.len() - 1] == last);
            assert(ids.to_set().contains(last));
            let l = ids.index_of(last);
            assert(l < k);
            lemma_too_few(ids, batch, l);
        }
    }
    assert(batch.to_set() =~= front.to_set());
    crate::common::collections::lemma_ascending_unique(batch, front);
}

proof fn lemma_too_many(ids: Seq<u32>, batch: Seq<u32>, k: int)
    requires
        ascending(ids),
        ascending(batch),
        0 <= k < ids.len(),
        batch.contains(ids[k]),
        forall|t: u32| #[trigger]
            ids.to_set().contains(t) && !batch.contains(t) ==> t > batch.last(),
    ensures
        k < batch.len(),
{
    let front = ids.take(k);
    lemma_ascending_len(front);
    lemma_ascending_len(batch);
    assert(front.to_set().subset_of(batch.to_set().remove(ids[k]))) by {
        assert forall|x: u32| front.to_set().contains(x) implies batch.to_set().remove(
            ids[k],
        ).contains(x) by {
            let i = front.index_of(x);
            assert(ids[i] == x);
            assert(ids.to_set().contains(x));
            assert(x < ids[k]);
            let b = batch.index_of(ids[k]);
            assert(ids[k] <= batch.last());
            assert(batch.contains(x));
        }
    }
    vstd::set_lib::lemma_len_subset(front.to_set(), batch.to_set().remove(ids[k]));
}

proof fn lemma_too_few(ids: Seq<u32>, batch: Seq<u32>, l: int)
    requires
        ascending(ids),
        ascending(batch),
        0 <= l < ids.len(),
        0 < batch.len(),
        ids[l] == batch.last(),
        forall|i: int| 0 <= i < batch.len() ==> ids.to_set().contains(#[trigger] batch[i]),
    ensures
        l >= batch.len() - 1,
{
    let front = ids.take(l + 1);
    lemma_ascending_len(front);
    lemma_ascending_len(batch);
    assert(batch.to_set().subset_of(front.to_set())) by {
        assert forall|x: u32| batch.to_set().contains(x) implies front.to_set().contains(x) by {
            let b = batch.index_of(x);
            assert(ids.to_set().contains(batch[b]));
            let k = ids.index_of(x);
            assert(x <= batch.last());
            assert(k <= l);
            assert(front[k] == x);
        }
    }
    vstd::set_lib::lemma_len_subset(batch.to_set(), front.to_set());
}

} // verus!
