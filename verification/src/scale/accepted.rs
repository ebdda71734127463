//! That a reschedule which passes the checks can be carried out where the cluster is in order.
use crate::common::bitmap::{ones, VNODE_COUNT};
use crate::common::collections::{ascending_of, lemma_ascending_exists, lemma_first_in};
use crate::common::worker::WorkerNode;
use crate::scale::alignment::{apart_on_units, fresh, lemma_actors_change, lemma_alignment_kept};
use crate::scale::alignment::{lemma_apart_after, lemma_units_after, one_each, runs_on};
use crate::scale::alignment::{units_after, units_of};
use crate::scale::arrange::{added_count, all_actors_after, creations, inner, removals};
use crate::scale::arrange::unit_of_actor;
use crate::scale::checks::{bad_additions, current_units, first_refused, unit_owners, verdict};
use crate::scale::checks::worker_map;
use crate::scale::context::{down_step, follows, is_context, is_down_path, lemma_completed};
use crate::scale::context::{dispatchers_of, followers, lemma_ends_known, lemma_follow_edge};
use crate::scale::context::{refusal, sources_of, targets_of, with_followers, RescheduleContext};
use crate::scale::links::dispatcher_index;
use crate::scale::model::{ActorStatus, CustomActorInfo, CustomFragmentInfo, DispatcherType};
use crate::scale::model::{FragmentDistributionType, TableFragments, TableState, UnitChange};
use crate::scale::prepare::outcome;
use crate::scale::rebalance::{can_rebalance, is_actor, own_all_vnodes};
use crate::scale::relation::{aligned, edges_aligned, followers_aligned, is_followed_edge, is_root};
use crate::scale::relation::roots_rebalance;
use crate::scale::tables::{actors_of, fragments_of, states_of, statuses_of, tables_valid};
use vstd::prelude::*;

verus! {

/// Every fragment has actors, and each runs on a parallel unit of its own.
pub open spec fn all_one_each(
    fragments: Map<u32, &CustomFragmentInfo>,
    statuses: Map<u32, ActorStatus>,
) -> bool {
    forall|f: u32| #[trigger]
        fragments.contains_key(f) ==> fragments[f].actors@.len() > 0 && one_each(
            fragments[f].actors@,
            statuses,
        )
}

/// Fragments of which one follows the other run on the same parallel units.
pub open spec fn side_by_side(
    fragments: Map<u32, &CustomFragmentInfo>,
    statuses: Map<u32, ActorStatus>,
    index: Map<u32, Map<u32, DispatcherType>>,
    sources: Set<u32>,
    targets: Set<u32>,
) -> bool {
    forall|x: u32, y: u32| #[trigger]
        is_followed_edge(index, sources, targets, x, y) ==> units_of(fragments[x].actors@, statuses)
            == units_of(fragments[y].actors@, statuses)
}

/// The jobs are in order: actors have parallel units to themselves, and fragments that follow one
/// another run side by side.
pub open spec fn in_order(tables: Seq<TableFragments>) -> bool {
    &&& tables_valid(tables)
    &&& forall|i: int| 0 <= i < tables.len() ==> (#[trigger] tables[i]).fragments@.dom().finite()
    &&& actors_of(tables).dom().finite()
    &&& all_one_each(fragments_of(tables), statuses_of(tables))
    &&& side_by_side(
        fragments_of(tables),
        statuses_of(tables),
        dispatchers_of(tables),
        sources_of(tables),
        targets_of(tables),
    )
}

/// The roots that a fragment follows are to change in the same way.
pub open spec fn agreeing(tables: Seq<TableFragments>, roots: Map<u32, UnitChange>) -> bool {
    forall|r: u32, s: u32, x: u32|
        roots.contains_key(r) && roots.contains_key(s) && #[trigger] follows(tables, r, x)
            && #[trigger] follows(tables, s, x) ==> roots[r] == roots[s]
}

/// The plans name finitely many parallel units.
pub open spec fn finite_plans(plans: Map<u32, UnitChange>) -> bool {
    &&& plans.dom().finite()
    &&& forall|f: u32| #[trigger]
        plans.contains_key(f) ==> plans[f].added.finite() && plans[f].removed.finite()
}

/// No plan is refused where none is the first to be.
proof fn lemma_none_refused(
    ids: Seq<u32>,
    plans: Map<u32, UnitChange>,
    fragments: Map<u32, &CustomFragmentInfo>,
    states: Map<u32, TableState>,
    statuses: Map<u32, ActorStatus>,
    targets: Set<u32>,
    owners: Map<u32, u32>,
)
    requires
        first_refused(ids, plans, fragments, states, statuses, targets, owners) is None,
    ensures
        forall|i: int|
            0 <= i < ids.len() ==> verdict(
                #[trigger] ids[i],
                plans[ids[i]],
                fragments,
                states,
                statuses,
                targets,
                owners,
            ) is Ok,
    decreases ids.len(),
{
    if ids.len() > 0 {
        lemma_none_refused(ids.skip(1), plans, fragments, states, statuses, targets, owners);
        assert forall|i: int| 0 <= i < ids.len() implies verdict(
            #[trigger] ids[i],
            plans[ids[i]],
            fragments,
            states,
            statuses,
            targets,
            owners,
        ) is Ok by {
            if i > 0 {
                assert(ids.skip(1)[i - 1] == ids[i]);
            }
        }
    }
}

/// The parallel units that actors are on, said in two ways.
proof fn lemma_current_units(fragment: &CustomFragmentInfo, statuses: Map<u32, ActorStatus>)
    requires
        one_each(fragment.actors@, statuses),
    ensures
        current_units(fragment, statuses) == units_of(fragment.actors@, statuses),
{
    let actors = fragment.actors@;
    let current = current_units(fragment, statuses);
    let units = units_of(actors, statuses);
    assert forall|u: u32| current.contains(u) <==> units.contains(u) by {
        if current.contains(u) {
            let j = choose|j: int|
                0 <= j < actors.len()
                    && statuses[(#[trigger] actors[j]).actor_id].parallel_unit->Some_0.id == u;
            assert(unit_of_actor(statuses, actors[j].actor_id) is Some);
            assert(runs_on(actors, statuses, j, u));
        }
        if units.contains(u) {
            let i = choose|i: int| runs_on(actors, statuses, i, u);
            assert(statuses[actors[i].actor_id].parallel_unit->Some_0.id == u);
        }
    }
    assert(current =~= units);
}

/// A plan that is not refused adds no parallel unit on which an actor stays.
proof fn lemma_nothing_stays(
    fragment_id: u32,
    plan: UnitChange,
    fragments: Map<u32, &CustomFragmentInfo>,
    states: Map<u32, TableState>,
    statuses: Map<u32, ActorStatus>,
    targets: Set<u32>,
    owners: Map<u32, u32>,
)
    requires
        verdict(fragment_id, plan, fragments, states, statuses, targets, owners) is Ok,
        plan.added.finite(),
        one_each(fragments[fragment_id].actors@, statuses),
    ensures
        forall|unit: u32| #[trigger]
            plan.added.contains(unit) && units_of(
                fragments[fragment_id].actors@,
                statuses,
            ).contains(unit) ==> plan.removed.contains(unit),
{
    let current = current_units(fragments[fragment_id], statuses);
    lemma_current_units(fragments[fragment_id], statuses);
    lemma_ascending_exists(plan.added);
    lemma_first_in(ascending_of(plan.added), bad_additions(plan, current, owners));
    assert forall|unit: u32| #[trigger]
        plan.added.contains(unit) && current.contains(unit) implies plan.removed.contains(unit) by {
        assert(ascending_of(plan.added).to_set().contains(unit));
        assert(!bad_additions(plan, current, owners).contains(unit));
    }
}

/// Something is left of a fragment whose plan is not refused.
proof fn lemma_some_left(
    fragment_id: u32,
    plan: UnitChange,
    fragments: Map<u32, &CustomFragmentInfo>,
    states: Map<u32, TableState>,
    statuses: Map<u32, ActorStatus>,
    targets: Set<u32>,
    owners: Map<u32, u32>,
)
    requires
        verdict(fragment_id, plan, fragments, states, statuses, targets, owners) is Ok,
        plan.added.finite(),
        plan.removed.finite(),
        fragments[fragment_id].actors@.len() > 0,
        one_each(fragments[fragment_id].actors@, statuses),
    ensures
        exists|unit: u32|
            units_after(units_of(fragments[fragment_id].actors@, statuses), plan).contains(unit),
{
    let actors = fragments[fragment_id].actors@;
    let units = units_of(actors, statuses);
    let current = current_units(fragments[fragment_id], statuses);
    assert(unit_of_actor(statuses, actors[0].actor_id) is Some);
    let first = unit_of_actor(statuses, actors[0].actor_id)->Some_0;
    assert(runs_on(actors, statuses, 0, first));
    assert(units.contains(first));
    lemma_current_units(fragments[fragment_id], statuses);
    lemma_ascending_exists(plan.removed);
    lemma_ascending_exists(plan.added);
    lemma_first_in(ascending_of(plan.removed), current.complement());
    let after = units_after(units, plan);
    if forall|unit: u32| !after.contains(unit) {
        assert forall|u: u32| plan.removed.contains(u) implies current.contains(u) by {
            assert(ascending_of(plan.removed).to_set().contains(u));
        }
        assert forall|u: u32| current.contains(u) implies plan.removed.contains(u) by {
            assert(!after.contains(u));
        }
        assert(current =~= plan.removed);
        assert forall|u: u32| !plan.added.contains(u) by {
            assert(!after.contains(u));
        }
        assert(plan.added =~= Set::empty());
        assert(plan.removed.contains(first));
        assert(plan.removed.len() > 0);
    }
}

/// Fragments along a path of followers run on the same parallel units.
proof fn lemma_path_units(tables: Seq<TableFragments>, path: Seq<u32>)
    requires
        in_order(tables),
        is_down_path(dispatchers_of(tables), targets_of(tables), path),
        is_root(sources_of(tables), targets_of(tables), path.first()),
    ensures
        units_of(fragments_of(tables)[path.first()].actors@, statuses_of(tables)) == units_of(
            fragments_of(tables)[path.last()].actors@,
            statuses_of(tables),
        ),
    decreases path.len(),
{
    let index = dispatchers_of(tables);
    let sources = sources_of(tables);
    let targets = targets_of(tables);
    let k = path.len() - 2;
    assert(down_step(index, targets, path[k], path[k + 1], k == 0));
    if k > 0 {
        assert(down_step(index, targets, path[k - 1], path[k - 1 + 1], k - 1 == 0));
        let shorter = path.drop_last();
        assert forall|i: int| #![trigger shorter[i]] 0 <= i < shorter.len() - 1 implies down_step(
            index,
            targets,
            shorter[i],
            shorter[i + 1],
            i == 0,
        ) by {
            assert(shorter[i] == path[i] && shorter[i + 1] == path[i + 1]);
        }
        lemma_path_units(tables, shorter);
        assert(shorter.last() == path[k]);
    }
    assert(is_followed_edge(index, sources, targets, path[k], path[k + 1]));
}

/// A fragment in a completed plan changes as a root does that it follows or is, and runs on the
/// same parallel units.
pub proof fn lemma_root_of(tables: Seq<TableFragments>, roots: Map<u32, UnitChange>, x: u32) -> (r: u32)
    requires
        in_order(tables),
        agreeing(tables, roots),
        roots.dom().finite(),
        forall|r: u32| #[trigger] roots.contains_key(r) ==> !targets_of(tables).contains(r),
        with_followers(tables, roots).contains_key(x),
    ensures
        roots.contains_key(r),
        x == r || follows(tables, r, x),
        with_followers(tables, roots)[x] == roots[r],
        units_of(fragments_of(tables)[x].actors@, statuses_of(tables)) == units_of(
            fragments_of(tables)[r].actors@,
            statuses_of(tables),
        ),
        forall|s: u32|
            roots.contains_key(s) && #[trigger] follows(tables, s, x) ==> roots[s] == roots[r],
{
    let plans = with_followers(tables, roots);
    lemma_completed(tables, roots);
    let index = dispatchers_of(tables);
    let targets = targets_of(tables);
    if roots.contains_key(x) {
        assert forall|s: u32|
            roots.contains_key(s) && #[trigger] follows(tables, s, x) implies roots[s] == roots[x] by {
            let path = choose|path: Seq<u32>| #[trigger]
                is_down_path(index, targets, path) && path.first() == s && path.last() == x;
            let k = path.len() - 2;
            assert(down_step(index, targets, path[k], path[k + 1], k == 0));
        }
        x
    } else {
        assert(plans.contains_key(x));
        let r = choose|r: u32|
            roots.contains_key(r) && #[trigger] follows(tables, r, x) && plans[x] == roots[r];
        let path = choose|path: Seq<u32>| #[trigger]
            is_down_path(index, targets, path) && path.first() == r && path.last() == x;
        lemma_path_units(tables, path);
        r
    }
}

/// The plans of the roots pass the checks, the jobs are in order, the roots that a fragment follows
/// are to change in the same way, and there are new ids for the actors that come.
pub open spec fn accepted(
    workers: Seq<WorkerNode>,
    tables: Seq<TableFragments>,
    roots: Map<u32, UnitChange>,
    new_ids: Seq<u32>,
) -> bool {
    let plans = with_followers(tables, roots);
    &&& refusal(workers, tables, roots) is None
    &&& in_order(tables)
    &&& agreeing(tables, roots)
    &&& finite_plans(roots)
    &&& plans.dom().finite()
    &&& added_count(ascending_of(plans.dom()), plans) <= new_ids.len()
    &&& forall|f: u32| #[trigger]
        fragments_of(tables).contains_key(f) ==> fresh(new_ids, fragments_of(tables)[f].actors@)
}

/// Where the actors are after the reschedule.
pub open spec fn places_after(
    tables: Seq<TableFragments>,
    plans: Map<u32, UnitChange>,
    new_ids: Seq<u32>,
) -> Map<u32, Map<u32, u32>> {
    let ids = ascending_of(plans.dom());
    all_actors_after(
        plans.dom(),
        fragments_of(tables),
        removals(ids, plans, fragments_of(tables), statuses_of(tables)),
        creations(ids, plans, new_ids),
        statuses_of(tables),
    )
}

/// The plan of a root passes the checks.
pub proof fn lemma_root_accepted(
    workers: Seq<WorkerNode>,
    tables: Seq<TableFragments>,
    roots: Map<u32, UnitChange>,
    new_ids: Seq<u32>,
)
    requires
        accepted(workers, tables, roots, new_ids),
    ensures
        forall|r: u32| #[trigger]
            roots.contains_key(r) ==> !targets_of(tables).contains(r) && fragments_of(
                tables,
            ).contains_key(r) && verdict(
                r,
                roots[r],
                fragments_of(tables),
                states_of(tables),
                statuses_of(tables),
                targets_of(tables),
                unit_owners(worker_map(workers), false),
            ) is Ok,
{
    let ids = ascending_of(roots.dom());
    let owners = unit_owners(worker_map(workers), false);
    lemma_ascending_exists(roots.dom());
    lemma_none_refused(
        ids,
        roots,
        fragments_of(tables),
        states_of(tables),
        statuses_of(tables),
        targets_of(tables),
        owners,
    );
    assert forall|r: u32| #[trigger] roots.contains_key(r) implies !targets_of(tables).contains(r)
        && fragments_of(tables).contains_key(r) && verdict(
        r,
        roots[r],
        fragments_of(tables),
        states_of(tables),
        statuses_of(tables),
        targets_of(tables),
        owners,
    ) is Ok by {
        assert(ids.to_set().contains(r));
        let i = ids.index_of(r);
        assert(ids[i] == r);
    }
}

/// A follower is a downstream end of a `NoShuffle` relation.
pub proof fn lemma_follower_is_target(tables: Seq<TableFragments>, r: u32, x: u32)
    requires
        follows(tables, r, x),
    ensures
        targets_of(tables).contains(x),
{
    let index = dispatchers_of(tables);
    let targets = targets_of(tables);
    let path = choose|path: Seq<u32>| #[trigger]
        is_down_path(index, targets, path) && path.first() == r && path.last() == x;
    let k = path.len() - 2;
    assert(down_step(index, targets, path[k], path[k + 1], k == 0));
}

/// A fragment in the plan is known, and its change names finitely many parallel units.
pub proof fn lemma_planned(
    workers: Seq<WorkerNode>,
    tables: Seq<TableFragments>,
    roots: Map<u32, UnitChange>,
    new_ids: Seq<u32>,
    f: u32,
)
    requires
        accepted(workers, tables, roots, new_ids),
        with_followers(tables, roots).contains_key(f),
    ensures
        fragments_of(tables).contains_key(f),
        with_followers(tables, roots)[f].added.finite(),
        with_followers(tables, roots)[f].removed.finite(),
{
    lemma_root_accepted(workers, tables, roots, new_ids);
    let r = lemma_root_of(tables, roots, f);
    assert(roots.contains_key(r));
    if f != r {
        lemma_follower_is_target(tables, r, f);
        lemma_ends_known(tables);
    }
}

/// Every fragment in the plan has an actor afterwards.
proof fn lemma_actor_left(
    workers: Seq<WorkerNode>,
    tables: Seq<TableFragments>,
    roots: Map<u32, UnitChange>,
    new_ids: Seq<u32>,
    f: u32,
)
    requires
        accepted(workers, tables, roots, new_ids),
        with_followers(tables, roots).contains_key(f),
    ensures
        places_after(tables, with_followers(tables, roots), new_ids)[f].dom().len() > 0,
{
    let plans = with_followers(tables, roots);
    let fragments = fragments_of(tables);
    let statuses = statuses_of(tables);
    let places = places_after(tables, plans, new_ids);
    lemma_root_accepted(workers, tables, roots, new_ids);
    lemma_planned(workers, tables, roots, new_ids, f);
    let r = lemma_root_of(tables, roots, f);
    assert(roots.contains_key(r));
    lemma_units_after(plans, fragments, statuses, new_ids, f);
    lemma_some_left(
        r,
        roots[r],
        fragments,
        states_of(tables),
        statuses,
        targets_of(tables),
        unit_owners(worker_map(workers), false),
    );
    let unit = choose|unit: u32|
        units_after(units_of(fragments[r].actors@, statuses), roots[r]).contains(unit);
    assert(places[f].values().contains(unit));
    let a = choose|a: u32| places[f].contains_key(a) && places[f][a] == unit;
    assert(places[f].dom().contains(a));
}

/// A fragment that follows a root of the plan, or another such fragment that follows it, is
/// placed where that one is.
proof fn lemma_stay_aligned(
    workers: Seq<WorkerNode>,
    tables: Seq<TableFragments>,
    roots: Map<u32, UnitChange>,
    new_ids: Seq<u32>,
    r: u32,
    x: u32,
    f: u32,
)
    requires
        accepted(workers, tables, roots, new_ids),
        roots.contains_key(r),
        x == r || follows(tables, r, x),
        follows(tables, r, f),
    ensures
        with_followers(tables, roots).contains_key(x),
        with_followers(tables, roots).contains_key(f),
        aligned(
            places_after(tables, with_followers(tables, roots), new_ids)[x],
            places_after(tables, with_followers(tables, roots), new_ids)[f],
        ),
{
    let plans = with_followers(tables, roots);
    lemma_root_accepted(workers, tables, roots, new_ids);
    lemma_completed(tables, roots);
    assert(plans.contains_key(x));
    assert(plans.contains_key(f));
    let s = lemma_root_of(tables, roots, x);
    let t = lemma_root_of(tables, roots, f);
    assert(plans[f] == roots[r]);
    if x == r {
        if s != r {
            lemma_follower_is_target(tables, s, r);
        }
    }
    assert(plans[x] == roots[r]);
    lemma_follower_units(tables, r, f);
    if x != r {
        lemma_follower_units(tables, r, x);
    }
    lemma_planned(workers, tables, roots, new_ids, x);
    lemma_planned(workers, tables, roots, new_ids, f);
    lemma_alignment_kept(plans, fragments_of(tables), statuses_of(tables), new_ids, x, f);
}

/// A follower runs on the parallel units of its root.
pub proof fn lemma_follower_units(tables: Seq<TableFragments>, r: u32, f: u32)
    requires
        in_order(tables),
        !targets_of(tables).contains(r),
        follows(tables, r, f),
    ensures
        units_of(fragments_of(tables)[r].actors@, statuses_of(tables)) == units_of(
            fragments_of(tables)[f].actors@,
            statuses_of(tables),
        ),
{
    let path = choose|path: Seq<u32>| #[trigger]
        is_down_path(dispatchers_of(tables), targets_of(tables), path) && path.first() == r
            && path.last() == f;
    lemma_path_units(tables, path);
}

/// No two actors of a fragment in the plan are on the same parallel unit afterwards.
pub proof fn lemma_accepted_apart(
    workers: Seq<WorkerNode>,
    tables: Seq<TableFragments>,
    roots: Map<u32, UnitChange>,
    new_ids: Seq<u32>,
    f: u32,
)
    requires
        accepted(workers, tables, roots, new_ids),
        with_followers(tables, roots).contains_key(f),
    ensures
        places_after(tables, with_followers(tables, roots), new_ids)[f].dom().finite(),
        apart_on_units(places_after(tables, with_followers(tables, roots), new_ids)[f]),
{
    let plans = with_followers(tables, roots);
    let fragments = fragments_of(tables);
    let statuses = statuses_of(tables);
    lemma_root_accepted(workers, tables, roots, new_ids);
    lemma_planned(workers, tables, roots, new_ids, f);
    let r = lemma_root_of(tables, roots, f);
    assert(roots.contains_key(r));
    lemma_units_after(plans, fragments, statuses, new_ids, f);
    lemma_nothing_stays(
        r,
        roots[r],
        fragments,
        states_of(tables),
        statuses,
        targets_of(tables),
        unit_owners(worker_map(workers), false),
    );
    lemma_apart_after(plans, fragments, statuses, new_ids, f);
}

/// A reschedule that passes the checks leaves every fragment with an actor, and fragments that
/// follow one another side by side, so that each actor of the one finds its counterpart in the
/// other. This holds of jobs that are in order, where the roots that a fragment follows are to
/// change in the same way.
pub proof fn lemma_accepted_places(
    ctx: &RescheduleContext,
    workers: Seq<WorkerNode>,
    tables: Seq<TableFragments>,
    roots: Map<u32, UnitChange>,
    source_flag: u32,
    new_ids: Seq<u32>,
)
    requires
        is_context(*ctx, workers, tables, roots, source_flag),
        accepted(workers, tables, roots, new_ids),
    ensures
        ({
            let plans = with_followers(tables, roots);
            let o = outcome(ctx, plans, new_ids);
            let index = dispatcher_index(ctx.fragment_dispatcher_map@);
            let sources = ctx.no_shuffle_source_fragment_ids@;
            let targets = ctx.no_shuffle_target_fragment_ids@;
            &&& forall|f: u32| #[trigger]
                plans.contains_key(f) ==> ctx.fragment_map@.contains_key(f)
                    && ctx.fragment_map@[f].actors@.len() > 0 && o.places[f].dom().len() > 0
            &&& followers_aligned(plans.dom(), index, sources, targets, o.places)
            &&& edges_aligned(plans.dom(), index, sources, targets, o.places)
        }),
{
    let plans = with_followers(tables, roots);
    let o = outcome(ctx, plans, new_ids);
    let index = dispatchers_of(tables);
    let sources = sources_of(tables);
    let targets = targets_of(tables);
    let places = places_after(tables, plans, new_ids);
    assert(o.places == places);
    lemma_root_accepted(workers, tables, roots, new_ids);
    assert forall|f: u32| #[trigger] plans.contains_key(f) implies ctx.fragment_map@.contains_key(f)
        && ctx.fragment_map@[f].actors@.len() > 0 && places[f].dom().len() > 0 by {
        lemma_planned(workers, tables, roots, new_ids, f);
        lemma_actor_left(workers, tables, roots, new_ids, f);
    }
    assert forall|r: u32, f: u32|
        plans.contains_key(r) && is_root(sources, targets, r) && #[trigger] followers(
            index,
            targets,
            r,
        ).contains(f) implies places.contains_key(r) && places.contains_key(f) && aligned(
        places[r],
        places[f],
    ) by {
        let top = lemma_root_of(tables, roots, r);
        if top != r {
            lemma_follower_is_target(tables, top, r);
        }
        assert(follows(tables, r, f));
        lemma_stay_aligned(workers, tables, roots, new_ids, r, r, f);
    }
    assert forall|up: u32, f: u32|
        plans.contains_key(up) && #[trigger] is_followed_edge(
            index,
            sources,
            targets,
            up,
            f,
        ) implies places.contains_key(up) && places.contains_key(f) && aligned(
        places[up],
        places[f],
    ) by {
        let r = lemma_root_of(tables, roots, up);
        if up != r {
            lemma_follower_is_target(tables, r, up);
        }
        lemma_follow_edge(index, targets, r, up, f);
        assert(follows(tables, r, f));
        lemma_stay_aligned(workers, tables, roots, new_ids, r, up, f);
    }
}

/// The virtual nodes of every hash-distributed fragment are with its actors, each once, and no actor
/// holds less than the average.
pub open spec fn evenly_owned(tables: Seq<TableFragments>) -> bool {
    forall|f: u32| #[trigger]
        fragments_of(tables).contains_key(f) && fragments_of(tables)[f].distribution_type
            == FragmentDistributionType::Hash ==> own_all_vnodes(fragments_of(tables)[f].actors@)
            && no_less_than_average(fragments_of(tables)[f].actors@)
}

/// No actor holds less virtual nodes than the average.
pub open spec fn no_less_than_average(actors: Seq<CustomActorInfo>) -> bool {
    forall|i: int|
        0 <= i < actors.len() ==> ones((#[trigger] actors[i]).vnode_bitmap->Some_0@)
            >= VNODE_COUNT as int / actors.len() as int
}

/// The virtual nodes of the roots of a reschedule that passes the checks can be spread anew, where
/// they are evenly owned before.
pub proof fn lemma_accepted_rebalances(
    ctx: &RescheduleContext,
    workers: Seq<WorkerNode>,
    tables: Seq<TableFragments>,
    roots: Map<u32, UnitChange>,
    source_flag: u32,
    new_ids: Seq<u32>,
)
    requires
        is_context(*ctx, workers, tables, roots, source_flag),
        accepted(workers, tables, roots, new_ids),
        evenly_owned(tables),
        forall|f: u32| #[trigger]
            fragments_of(tables).contains_key(f) ==> fragments_of(tables)[f].actors@.len()
                + new_ids.len() <= usize::MAX,
    ensures
        ({
            let plans = with_followers(tables, roots);
            let o = outcome(ctx, plans, new_ids);
            roots_rebalance(
                plans.dom(),
                ctx.fragment_map@,
                ctx.no_shuffle_target_fragment_ids@,
                o.to_remove,
                o.to_create,
            )
        }),
{
    let plans = with_followers(tables, roots);
    let o = outcome(ctx, plans, new_ids);
    let fragments = fragments_of(tables);
    lemma_root_accepted(workers, tables, roots, new_ids);
    assert forall|f: u32| #[trigger]
        plans.dom().contains(f) && !targets_of(tables).contains(f) implies fragments.contains_key(f)
        && (fragments[f].distribution_type == FragmentDistributionType::Hash ==> can_rebalance(
        fragments[f].actors@,
        inner(o.to_remove, f).dom(),
        inner(o.to_create, f).dom(),
    ) && fragments[f].actors@.len() + inner(o.to_create, f).dom().len() <= usize::MAX) by {
        assert(plans.contains_key(f));
        lemma_planned(workers, tables, roots, new_ids, f);
        lemma_actor_left(workers, tables, roots, new_ids, f);
        lemma_actors_change(plans, fragments, statuses_of(tables), new_ids, f);
        let actors = fragments[f].actors@;
        let created = inner(o.to_create, f).dom();
        assert forall|a: u32| #[trigger] created.contains(a) implies !is_actor(actors, a) by {
            let k = new_ids.index_of(a);
            if is_actor(actors, a) {
                let i = choose|i: int| 0 <= i < actors.len() && (#[trigger] actors[i]).actor_id == a;
                assert(new_ids[k] != actors[i].actor_id);
            }
        }
    }
}

} // verus!
