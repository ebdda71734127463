//! Which actors a reschedule removes and creates, said of the parallel units that they are on.
use crate::common::collections::{ascending, ascending_of, lemma_ascending_exists, lemma_ascending_len};
use crate::scale::arrange::{actors_on_units, added_count, arrange_reschedules, collect_actors_after};
use crate::scale::arrange::{created_on, creations, first_unplaced, first_unplaced_in, inner, kept, nested};
use crate::scale::arrange::{removals, removed_from, unit_of_actor};
use crate::scale::context::RescheduleContext;
use crate::scale::model::{ActorStatus, CustomActorInfo, CustomFragmentInfo, ParallelUnitReschedule};
use crate::scale::model::{ScaleError, UnitChange};
use crate::scale::no_shuffle::plans_of;
use std::collections::BTreeMap;
use vstd::prelude::*;

verus! {

broadcast use {vstd::std_specs::btree::group_btree_axioms, vstd::laws_cmp::group_laws_cmp};

/// The parallel unit that an actor runs on.
pub open spec fn unit_at(statuses: Map<u32, ActorStatus>, a: u32) -> u32 {
    statuses[a].parallel_unit->Some_0.id
}

/// No actor is there twice, and no two actors are on one parallel unit.
pub open spec fn one_unit_each(actors: Seq<CustomActorInfo>, statuses: Map<u32, ActorStatus>) -> bool {
    forall|i: int, j: int|
        #![trigger actors[i], actors[j]]
        0 <= i < j < actors.len() ==> actors[i].actor_id != actors[j].actor_id && unit_at(
            statuses,
            actors[i].actor_id,
        ) != unit_at(statuses, actors[j].actor_id)
}

proof fn lemma_all_are_placed(actors: Seq<CustomActorInfo>, statuses: Map<u32, ActorStatus>)
    ensures
        match first_unplaced(actors, statuses) {
            None => forall|i: int|
                0 <= i < actors.len() ==> statuses.contains_key(
                    (#[trigger] actors[i]).actor_id,
                ) && statuses[actors[i].actor_id].parallel_unit is Some,
            Some(a) => exists|i: int|
                0 <= i < actors.len() && (#[trigger] actors[i]).actor_id == a && !(
                statuses.contains_key(a) && statuses[a].parallel_unit is Some),
        },
    decreases actors.len(),
{
    if actors.len() > 0 {
        let rest = actors.skip(1);
        lemma_all_are_placed(rest, statuses);
        if unit_of_actor(statuses, actors[0].actor_id) is Some {
            match first_unplaced(rest, statuses) {
                None => {
                    assert forall|i: int| 0 <= i < actors.len() implies statuses.contains_key(
                        (#[trigger] actors[i]).actor_id,
                    ) && statuses[actors[i].actor_id].parallel_unit is Some by {
                        if i > 0 {
                            assert(rest[i - 1] == actors[i]);
                        }
                    }
                },
                Some(a) => {
                    let i = choose|i: int|
                        0 <= i < rest.len() && (#[trigger] rest[i]).actor_id == a;
                    assert(actors[i + 1].actor_id == a);
                },
            }
        } else {
            assert(actors[0].actor_id == first_unplaced(actors, statuses)->Some_0);
        }
    }
}

proof fn lemma_placed_in(
    ids: Seq<u32>,
    fragments: Map<u32, &CustomFragmentInfo>,
    statuses: Map<u32, ActorStatus>,
)
    ensures
        match first_unplaced_in(ids, fragments, statuses) {
            None => forall|i: int|
                0 <= i < ids.len() ==> first_unplaced(
                    fragments[#[trigger] ids[i]].actors@,
                    statuses,
                ) is None,
            Some(a) => exists|i: int|
                0 <= i < ids.len() && first_unplaced(
                    fragments[#[trigger] ids[i]].actors@,
                    statuses,
                ) == Some(a),
        },
    decreases ids.len(),
{
    if ids.len() > 0 {
        let rest = ids.skip(1);
        lemma_placed_in(rest, fragments, statuses);
        match first_unplaced(fragments[ids[0]].actors@, statuses) {
            Some(a) => {
                assert(first_unplaced(fragments[ids[0]].actors@, statuses) == Some(a));
            },
            None => match first_unplaced_in(rest, fragments, statuses) {
                Some(a) => {
                    let i = choose|i: int|
                        0 <= i < rest.len() && first_unplaced(
                            fragments[#[trigger] rest[i]].actors@,
                            statuses,
                        ) == Some(a);
                    assert(first_unplaced(fragments[ids[i + 1]].actors@, statuses) == Some(a));
                },
                None => {
                    assert forall|i: int| 0 <= i < ids.len() implies first_unplaced(
                        fragments[#[trigger] ids[i]].actors@,
                        statuses,
                    ) is None by {
                        if i > 0 {
                            assert(rest[i - 1] == ids[i]);
                        }
                    }
                },
            },
        }
    }
}

proof fn lemma_on_units(actors: Seq<CustomActorInfo>, statuses: Map<u32, ActorStatus>)
    requires
        one_unit_each(actors, statuses),
        forall|i: int|
            0 <= i < actors.len() ==> statuses.contains_key((#[trigger] actors[i]).actor_id)
                && statuses[actors[i].actor_id].parallel_unit is Some,
    ensures
        forall|u: u32| #[trigger]
            actors_on_units(actors, statuses).contains_key(u) ==> exists|j: int|
                0 <= j < actors.len() && unit_at(statuses, (#[trigger] actors[j]).actor_id) == u
                    && actors_on_units(actors, statuses)[u] == actors[j].actor_id,
        forall|j: int|
            0 <= j < actors.len() ==> actors_on_units(actors, statuses).contains_key(
                unit_at(statuses, (#[trigger] actors[j]).actor_id),
            ) && actors_on_units(actors, statuses)[unit_at(statuses, actors[j].actor_id)]
                == actors[j].actor_id,
    decreases actors.len(),
{
    if actors.len() > 0 {
        let front = actors.drop_last();
        let n = actors.len() - 1;
        assert(one_unit_each(front, statuses)) by {
            assert forall|i: int, j: int|
                #![trigger front[i], front[j]]
                0 <= i < j < front.len() implies front[i].actor_id != front[j].actor_id && unit_at(
                statuses,
                front[i].actor_id,
            ) != unit_at(statuses, front[j].actor_id) by {
                assert(actors[i] == front[i] && actors[j] == front[j]);
            }
        }
        assert forall|i: int| 0 <= i < front.len() implies statuses.contains_key(
            (#[trigger] front[i]).actor_id,
        ) && statuses[front[i].actor_id].parallel_unit is Some by {
            assert(actors[i] == front[i]);
        }
        lemma_on_units(front, statuses);
        assert(actors[n] == actors.last());
        assert forall|u: u32| #[trigger]
            actors_on_units(actors, statuses).contains_key(u) implies exists|j: int|
            0 <= j < actors.len() && unit_at(statuses, (#[trigger] actors[j]).actor_id) == u
                && actors_on_units(actors, statuses)[u] == actors[j].actor_id by {
            if u == unit_at(statuses, actors[n].actor_id) {
                assert(unit_at(statuses, actors[n].actor_id) == u);
            } else {
                assert(actors_on_units(front, statuses).contains_key(u));
                let j = choose|j: int|
                    0 <= j < front.len() && unit_at(statuses, (#[trigger] front[j]).actor_id) == u
                        && actors_on_units(front, statuses)[u] == front[j].actor_id;
                assert(unit_at(statuses, actors[j].actor_id) == u);
            }
        }
        assert forall|j: int| 0 <= j < actors.len() implies actors_on_units(
            actors,
            statuses,
        ).contains_key(unit_at(statuses, (#[trigger] actors[j]).actor_id)) && actors_on_units(
            actors,
            statuses,
        )[unit_at(statuses, actors[j].actor_id)] == actors[j].actor_id by {
            if j < n {
                assert(front[j] == actors[j]);
                assert(unit_at(statuses, actors[j].actor_id) != unit_at(
                    statuses,
                    actors[n].actor_id,
                ));
            }
        }
    }
}

proof fn lemma_removed_from(units: Seq<u32>, on_units: Map<u32, u32>, a: u32)
    requires
        forall|u: u32, v: u32|
            #![trigger on_units[u], on_units[v]]
            on_units.contains_key(u) && on_units.contains_key(v) && on_units[u] == on_units[v] ==> u
                == v,
    ensures
        removed_from(units, on_units).contains_key(a) <==> exists|k: int|
            0 <= k < units.len() && on_units.contains_key(#[trigger] units[k])
                && on_units[units[k]] == a,
        removed_from(units, on_units).contains_key(a) ==> on_units.contains_key(
            removed_from(units, on_units)[a],
        ) && on_units[removed_from(units, on_units)[a]] == a && units.contains(
            removed_from(units, on_units)[a],
        ),
    decreases units.len(),
{
    if units.len() > 0 {
        let front = units.drop_last();
        let n = units.len() - 1;
        lemma_removed_from(front, on_units, a);
        let before = removed_from(front, on_units);
        assert(units[n] == units.last());
        if before.contains_key(a) {
            let k = choose|k: int|
                0 <= k < front.len() && on_units.contains_key(#[trigger] front[k])
                    && on_units[front[k]] == a;
            assert(units[k] == front[k]);
            assert(units[front.index_of(before[a])] == before[a]);
        }
        if exists|k: int|
            0 <= k < units.len() && on_units.contains_key(#[trigger] units[k])
                && on_units[units[k]] == a {
            let k = choose|k: int|
                0 <= k < units.len() && on_units.contains_key(#[trigger] units[k])
                    && on_units[units[k]] == a;
            if k < n {
                assert(front[k] == units[k]);
            }
        }
    }
}

proof fn lemma_removals(
    ids: Seq<u32>,
    plans: Map<u32, UnitChange>,
    fragments: Map<u32, &CustomFragmentInfo>,
    statuses: Map<u32, ActorStatus>,
    f: u32,
)
    ensures
        ({
            let m = removals(ids, plans, fragments, statuses);
            let removed = removed_from(
                ascending_of(plans[f].removed),
                actors_on_units(fragments[f].actors@, statuses),
            );
            &&& m.contains_key(f) <==> ids.contains(f) && !removed.dom().is_empty()
            &&& m.contains_key(f) ==> m[f] == removed
        }),
    decreases ids.len(),
{
    if ids.len() > 0 {
        let front = ids.drop_last();
        lemma_removals(front, plans, fragments, statuses, f);
        assert(ids[ids.len() - 1] == ids.last());
        if ids.contains(f) && ids.last() != f {
            let i = ids.index_of(f);
            assert(front[i] == f);
        }
        if front.contains(f) {
            assert(ids[front.index_of(f)] == f);
        }
    } else {
        assert(!ids.contains(f));
    }
}

/// An actor of a rescheduled fragment goes if and only if the fragment loses the parallel unit that it is on,
/// and it is listed with that unit; nothing else goes.
pub proof fn lemma_goes_with_unit(
    reschedule: &BTreeMap<u32, ParallelUnitReschedule>,
    ctx: &RescheduleContext,
    new_actor_ids: &Vec<u32>,
    to_remove: BTreeMap<u32, BTreeMap<u32, u32>>,
    to_create: BTreeMap<u32, BTreeMap<u32, u32>>,
    f: u32,
    a: u32,
)
    requires
        call_ensures(
            arrange_reschedules,
            (reschedule, ctx, new_actor_ids),
            Ok::<(BTreeMap<u32, BTreeMap<u32, u32>>, BTreeMap<u32, BTreeMap<u32, u32>>), ScaleError>(
                (to_remove, to_create),
            ),
        ),
        reschedule@.contains_key(f),
        reschedule@[f].removed_parallel_units@.finite(),
        one_unit_each(ctx.fragment_map@[f].actors@, ctx.actor_status@),
    ensures
        ({
            let goes = to_remove@.contains_key(f) && to_remove@[f]@.contains_key(a);
            let actors = ctx.fragment_map@[f].actors@;
            &&& goes <==> reschedule@[f].removed_parallel_units@.contains(
                unit_at(ctx.actor_status@, a),
            ) && exists|j: int| 0 <= j < actors.len() && (#[trigger] actors[j]).actor_id == a
            &&& goes ==> to_remove@[f]@[a] == unit_at(ctx.actor_status@, a)
        }),
        forall|g: u32| #[trigger] to_remove@.contains_key(g) ==> reschedule@.contains_key(g),
{
    let statuses = ctx.actor_status@;
    let actors = ctx.fragment_map@[f].actors@;
    let plans = plans_of(reschedule@);
    lemma_ascending_exists(reschedule@.dom());
    let ids = ascending_of(reschedule@.dom());
    lemma_placed_in(ids, ctx.fragment_map@, statuses);
    assert(ids.to_set().contains(f));
    let i = ids.index_of(f);
    assert(first_unplaced(ctx.fragment_map@[ids[i]].actors@, statuses) is None);
    lemma_all_are_placed(actors, statuses);
    lemma_on_units(actors, statuses);
    let on = actors_on_units(actors, statuses);
    let lost = reschedule@[f].removed_parallel_units@;
    assert(plans[f] == reschedule@[f]@);
    lemma_ascending_exists(lost);
    let units = ascending_of(lost);
    assert forall|u: u32, v: u32|
        #![trigger on[u], on[v]]
        on.contains_key(u) && on.contains_key(v) && on[u] == on[v] implies u == v by {
        let j = choose|j: int|
            0 <= j < actors.len() && unit_at(statuses, (#[trigger] actors[j]).actor_id) == u
                && on[u] == actors[j].actor_id;
        let k = choose|k: int|
            0 <= k < actors.len() && unit_at(statuses, (#[trigger] actors[k]).actor_id) == v
                && on[v] == actors[k].actor_id;
        assert(actors[j].actor_id == actors[k].actor_id);
    }
    lemma_removed_from(units, on, a);
    lemma_removals(ids, plans, ctx.fragment_map@, statuses, f);
    let removed = removed_from(units, on);
    let m = nested(to_remove@);
    assert(m.contains_key(f) <==> to_remove@.contains_key(f));
    let is_there = exists|j: int| 0 <= j < actors.len() && (#[trigger] actors[j]).actor_id == a;
    if removed.contains_key(a) {
        let u = removed[a];
        let j = choose|j: int|
            0 <= j < actors.len() && unit_at(statuses, (#[trigger] actors[j]).actor_id) == u
                && on[u] == actors[j].actor_id;
        assert(actors[j].actor_id == a);
        assert(units.to_set().contains(u));
        assert(lost.contains(u));
        assert(!removed.dom().is_empty()) by {
            assert(removed.dom().contains(a));
        }
    }
    if lost.contains(unit_at(statuses, a)) && is_there {
        let j = choose|j: int| 0 <= j < actors.len() && (#[trigger] actors[j]).actor_id == a;
        let u = unit_at(statuses, actors[j].actor_id);
        assert(units.to_set().contains(u));
        let k = units.index_of(u);
        assert(on.contains_key(units[k]) && on[units[k]] == a);
    }
    assert forall|g: u32| #[trigger] to_remove@.contains_key(g) implies reschedule@.contains_key(
        g,
    ) by {
        lemma_removals(ids, plans, ctx.fragment_map@, statuses, g);
        assert(m.contains_key(g));
        assert(ids.to_set().contains(g));
    }
}

proof fn lemma_created_on(units: Seq<u32>, ids: Seq<u32>)
    requires
        units.len() <= ids.len(),
        ids.no_duplicates(),
    ensures
        forall|k: int|
            0 <= k < units.len() ==> created_on(units, ids).contains_key(#[trigger] ids[k])
                && created_on(units, ids)[ids[k]] == units[k],
        forall|a: u32| #[trigger]
            created_on(units, ids).contains_key(a) ==> exists|k: int|
                0 <= k < units.len() && #[trigger] ids[k] == a,
    decreases units.len(),
{
    if units.len() > 0 {
        let front = units.drop_last();
        let n = units.len() - 1;
        lemma_created_on(front, ids);
        assert forall|k: int| 0 <= k < units.len() implies created_on(units, ids).contains_key(
            #[trigger] ids[k],
        ) && created_on(units, ids)[ids[k]] == units[k] by {
            if k < n {
                assert(ids[k] != ids[n]);
                assert(front[k] == units[k]);
            }
        }
        assert forall|a: u32| #[trigger]
            created_on(units, ids).contains_key(a) implies exists|k: int|
            0 <= k < units.len() && #[trigger] ids[k] == a by {
            if a == ids[n] {
                assert(ids[n] == a);
            } else {
                assert(created_on(front, ids).contains_key(a));
                let k = choose|k: int| 0 <= k < front.len() && #[trigger] ids[k] == a;
                assert(ids[k] == a);
            }
        }
    }
}

proof fn lemma_added_grows(ids: Seq<u32>, plans: Map<u32, UnitChange>, n: int)
    requires
        0 <= n <= ids.len(),
    ensures
        added_count(ids.take(n), plans) <= added_count(ids, plans),
    decreases ids.len(),
{
    if n < ids.len() {
        lemma_added_grows(ids.drop_last(), plans, n);
        assert(ids.drop_last().take(n) =~= ids.take(n));
    } else {
        assert(ids.take(n) =~= ids);
    }
}

proof fn lemma_creations(ids: Seq<u32>, plans: Map<u32, UnitChange>, new_ids: Seq<u32>, n: int)
    requires
        ids.no_duplicates(),
        0 <= n < ids.len(),
    ensures
        ({
            let m = creations(ids, plans, new_ids);
            let created = created_on(
                ascending_of(plans[ids[n]].added),
                new_ids.skip(added_count(ids.take(n), plans) as int),
            );
            &&& m.contains_key(ids[n]) <==> !created.dom().is_empty()
            &&& m.contains_key(ids[n]) ==> m[ids[n]] == created
        }),
    decreases ids.len(),
{
    let front = ids.drop_last();
    if n < front.len() {
        assert(front.take(n) =~= ids.take(n));
        assert(front[n] == ids[n]);
        assert(ids[n] != ids[ids.len() - 1]);
        lemma_creations(front, plans, new_ids, n);
    } else {
        assert(ids.take(n) =~= front);
        lemma_not_created(front, plans, new_ids, ids[n]);
    }
}

proof fn lemma_not_created(ids: Seq<u32>, plans: Map<u32, UnitChange>, new_ids: Seq<u32>, f: u32)
    requires
        !ids.contains(f),
    ensures
        !creations(ids, plans, new_ids).contains_key(f),
    decreases ids.len(),
{
    if ids.len() > 0 {
        let front = ids.drop_last();
        assert(ids[ids.len() - 1] == ids.last());
        assert(!front.contains(f)) by {
            if front.contains(f) {
                assert(ids[front.index_of(f)] == f);
            }
        }
        lemma_not_created(front, plans, new_ids, f);
    }
}

/// The place in the new ids from which on a fragment takes its actors.
spec fn taken_from(reschedule: Map<u32, ParallelUnitReschedule>, f: u32) -> int {
    let ids = ascending_of(reschedule.dom());
    added_count(ids.take(ids.index_of(f)), plans_of(reschedule)) as int
}

proof fn lemma_created_at(
    reschedule: Map<u32, ParallelUnitReschedule>,
    new_ids: Seq<u32>,
    to_create: Map<u32, BTreeMap<u32, u32>>,
    f: u32,
)
    requires
        reschedule.dom().finite(),
        reschedule.contains_key(f),
        reschedule[f].added_parallel_units@.finite(),
        new_ids.no_duplicates(),
        added_count(ascending_of(reschedule.dom()), plans_of(reschedule)) == new_ids.len(),
        nested(to_create) == creations(
            ascending_of(reschedule.dom()),
            plans_of(reschedule),
            new_ids,
        ),
    ensures
        ({
            let from = taken_from(reschedule, f);
            let units = ascending_of(reschedule[f].added_parallel_units@);
            &&& 0 <= from
            &&& from + units.len() <= new_ids.len()
            &&& to_create.contains_key(f) <==> units.len() > 0
            &&& units.to_set() == reschedule[f].added_parallel_units@
            &&& ascending(units)
            &&& to_create.contains_key(f) ==> {
                &&& forall|k: int|
                    0 <= k < units.len() ==> to_create[f]@.contains_key(
                        #[trigger] new_ids[from + k],
                    ) && to_create[f]@[new_ids[from + k]] == units[k]
                &&& forall|a: u32| #[trigger]
                    to_create[f]@.contains_key(a) ==> exists|k: int|
                        0 <= k < units.len() && #[trigger] new_ids[from + k] == a
            }
        }),
{
    let plans = plans_of(reschedule);
    lemma_ascending_exists(reschedule.dom());
    let ids = ascending_of(reschedule.dom());
    lemma_ascending_len(ids);
    assert(ids.to_set().contains(f));
    let n = ids.index_of(f);
    assert(ids[n] == f);
    assert(plans[f] == reschedule[f]@);
    let gained = reschedule[f].added_parallel_units@;
    lemma_ascending_exists(gained);
    let units = ascending_of(gained);
    let from = taken_from(reschedule, f);
    lemma_added_grows(ids, plans, n + 1);
    assert(ids.take(n + 1).drop_last() =~= ids.take(n));
    assert(ids.take(n + 1).last() == f);
    assert(added_count(ids.take(n + 1), plans) == from + gained.len());
    let rest = new_ids.skip(from);
    assert(rest.no_duplicates()) by {
        assert forall|i: int, j: int| 0 <= i < rest.len() && 0 <= j < rest.len() && i != j implies rest[i]
            != rest[j] by {
            assert(new_ids[from + i] != new_ids[from + j]);
        }
    }
    lemma_created_on(units, rest);
    lemma_creations(ids, plans, new_ids, n);
    let created = created_on(units, rest);
    let m = nested(to_create);
    assert(m.contains_key(f) <==> to_create.contains_key(f));
    if units.len() > 0 {
        assert(created.contains_key(rest[0]));
        assert(created.dom().contains(rest[0]));
        assert(!created.dom().is_empty());
    } else {
        assert(created.dom() =~= Set::empty());
    }
    if to_create.contains_key(f) {
        assert(m[f] == created);
        assert forall|k: int| 0 <= k < units.len() implies to_create[f]@.contains_key(
            #[trigger] new_ids[from + k],
        ) && to_create[f]@[new_ids[from + k]] == units[k] by {
            assert(rest[k] == new_ids[from + k]);
        }
        assert forall|a: u32| #[trigger] to_create[f]@.contains_key(a) implies exists|k: int|
            0 <= k < units.len() && #[trigger] new_ids[from + k] == a by {
            let k = choose|k: int| 0 <= k < units.len() && #[trigger] rest[k] == a;
            assert(new_ids[from + k] == a);
        }
    }
}

/// A fragment gets one new actor on each parallel unit that it gains, on no other, and one that gains none gets
/// none. The new actors are among the given ids, and no two fragments get the same one.
pub proof fn lemma_comes_to_unit(
    reschedule: &BTreeMap<u32, ParallelUnitReschedule>,
    ctx: &RescheduleContext,
    new_actor_ids: &Vec<u32>,
    to_remove: BTreeMap<u32, BTreeMap<u32, u32>>,
    to_create: BTreeMap<u32, BTreeMap<u32, u32>>,
    f: u32,
    g: u32,
    a: u32,
    b: u32,
    u: u32,
)
    requires
        call_ensures(
            arrange_reschedules,
            (reschedule, ctx, new_actor_ids),
            Ok::<(BTreeMap<u32, BTreeMap<u32, u32>>, BTreeMap<u32, BTreeMap<u32, u32>>), ScaleError>(
                (to_remove, to_create),
            ),
        ),
        added_count(ascending_of(reschedule@.dom()), plans_of(reschedule@)) == new_actor_ids@.len(),
        new_actor_ids@.no_duplicates(),
        reschedule@.contains_key(f),
        reschedule@.contains_key(g),
        reschedule@[f].added_parallel_units@.finite(),
        reschedule@[g].added_parallel_units@.finite(),
    ensures
        ({
            let comes_a = to_create@.contains_key(f) && to_create@[f]@.contains_key(a);
            let comes_b = to_create@.contains_key(f) && to_create@[f]@.contains_key(b);
            let gained = reschedule@[f].added_parallel_units@;
            &&& comes_a ==> new_actor_ids@.contains(a) && gained.contains(to_create@[f]@[a])
            &&& comes_a && comes_b && a != b ==> to_create@[f]@[a] != to_create@[f]@[b]
            &&& gained.contains(u) ==> exists|c: u32|
                to_create@.contains_key(f) && #[trigger] to_create@[f]@.contains_key(c)
                    && to_create@[f]@[c] == u
            &&& comes_a && f < g ==> !(to_create@.contains_key(g) && to_create@[g]@.contains_key(
                a,
            ))
        }),
{
    lemma_created_at(reschedule@, new_actor_ids@, to_create@, f);
    lemma_created_at(reschedule@, new_actor_ids@, to_create@, g);
    let new_ids = new_actor_ids@;
    let from = taken_from(reschedule@, f);
    let units = ascending_of(reschedule@[f].added_parallel_units@);
    lemma_ascending_len(units);
    let comes_a = to_create@.contains_key(f) && to_create@[f]@.contains_key(a);
    let comes_b = to_create@.contains_key(f) && to_create@[f]@.contains_key(b);
    if comes_a {
        let k = choose|k: int| 0 <= k < units.len() && #[trigger] new_ids[from + k] == a;
        assert(new_ids.contains(a));
        assert(units.to_set().contains(units[k]));
        if comes_b && a != b {
            let l = choose|l: int| 0 <= l < units.len() && #[trigger] new_ids[from + l] == b;
            assert(units[k] != units[l]);
        }
        if f < g && to_create@.contains_key(g) && to_create@[g]@.contains_key(a) {
            let start = taken_from(reschedule@, g);
            let others = ascending_of(reschedule@[g].added_parallel_units@);
            let l = choose|l: int| 0 <= l < others.len() && #[trigger] new_ids[start + l] == a;
            let plans = plans_of(reschedule@);
            lemma_ascending_exists(reschedule@.dom());
            let ids = ascending_of(reschedule@.dom());
            assert(ids.to_set().contains(f) && ids.to_set().contains(g));
            let i = ids.index_of(f);
            let j = ids.index_of(g);
            assert(ids[i] == f && ids[j] == g);
            assert(i < j);
            lemma_added_grows(ids.take(j), plans, i + 1);
            assert(ids.take(j).take(i + 1) =~= ids.take(i + 1));
            assert(ids.take(i + 1).drop_last() =~= ids.take(i));
            assert(ids.take(i + 1).last() == f);
            lemma_ascending_exists(reschedule@[f].added_parallel_units@);
            assert(plans[f] == reschedule@[f]@);
            assert(from + units.len() <= start);
            assert(from + k != start + l);
            assert(false);
        }
    }
    if reschedule@[f].added_parallel_units@.contains(u) {
        assert(units.to_set().contains(u));
        let k = units.index_of(u);
        let c = new_ids[from + k];
        assert(to_create@[f]@.contains_key(c));
    }
}

/// A reschedule cannot be arranged only where an actor of one of its fragments has no parallel unit, and it is
/// such an actor that is named.
pub proof fn lemma_arranged_unless_unplaced(
    reschedule: &BTreeMap<u32, ParallelUnitReschedule>,
    ctx: &RescheduleContext,
    new_actor_ids: &Vec<u32>,
    res: Result<(BTreeMap<u32, BTreeMap<u32, u32>>, BTreeMap<u32, BTreeMap<u32, u32>>), ScaleError>,
)
    requires
        call_ensures(arrange_reschedules, (reschedule, ctx, new_actor_ids), res),
    ensures
        ({
            let statuses = ctx.actor_status@;
            match res {
                Ok(_) => forall|f: u32, j: int|
                    reschedule@.contains_key(f) && 0 <= j < ctx.fragment_map@[f].actors@.len()
                        ==> statuses.contains_key(
                        (#[trigger] ctx.fragment_map@[f].actors@[j]).actor_id,
                    ) && statuses[ctx.fragment_map@[f].actors@[j].actor_id].parallel_unit is Some,
                Err(ScaleError::ActorWithoutParallelUnit { actor_id }) => {
                    &&& !(statuses.contains_key(actor_id)
                        && statuses[actor_id].parallel_unit is Some)
                    &&& exists|f: u32, j: int|
                        reschedule@.contains_key(f) && 0 <= j < ctx.fragment_map@[f].actors@.len()
                            && (#[trigger] ctx.fragment_map@[f].actors@[j]).actor_id == actor_id
                },
                Err(_) => false,
            }
        }),
{
    let statuses = ctx.actor_status@;
    lemma_ascending_exists(reschedule@.dom());
    let ids = ascending_of(reschedule@.dom());
    lemma_placed_in(ids, ctx.fragment_map@, statuses);
    match res {
        Ok(_) => {
            assert forall|f: u32, j: int|
                reschedule@.contains_key(f) && 0 <= j
                    < ctx.fragment_map@[f].actors@.len() implies statuses.contains_key(
                (#[trigger] ctx.fragment_map@[f].actors@[j]).actor_id,
            ) && statuses[ctx.fragment_map@[f].actors@[j].actor_id].parallel_unit is Some by {
                assert(ids.to_set().contains(f));
                let i = ids.index_of(f);
                assert(first_unplaced(ctx.fragment_map@[ids[i]].actors@, statuses) is None);
                lemma_all_are_placed(ctx.fragment_map@[f].actors@, statuses);
            }
        },
        Err(_) => {
            let a = first_unplaced_in(ids, ctx.fragment_map@, statuses)->Some_0;
            let i = choose|i: int|
                0 <= i < ids.len() && first_unplaced(
                    ctx.fragment_map@[#[trigger] ids[i]].actors@,
                    statuses,
                ) == Some(a);
            let f = ids[i];
            assert(ids.to_set().contains(f));
            lemma_all_are_placed(ctx.fragment_map@[f].actors@, statuses);
            let actors = ctx.fragment_map@[f].actors@;
            let j = choose|j: int| 0 <= j < actors.len() && (#[trigger] actors[j]).actor_id == a;
            assert(ctx.fragment_map@[f].actors@[j].actor_id == a);
        },
    }
}

proof fn lemma_kept(
    actors: Seq<CustomActorInfo>,
    removed: Map<u32, u32>,
    statuses: Map<u32, ActorStatus>,
    a: u32,
)
    ensures
        kept(actors, removed, statuses).contains_key(a) <==> !removed.contains_key(a) && exists|
            j: int,
        |
            0 <= j < actors.len() && (#[trigger] actors[j]).actor_id == a,
        kept(actors, removed, statuses).contains_key(a) ==> kept(actors, removed, statuses)[a]
            == unit_of_actor(statuses, a)->Some_0,
    decreases actors.len(),
{
    if actors.len() > 0 {
        let front = actors.drop_last();
        let n = actors.len() - 1;
        lemma_kept(front, removed, statuses, a);
        assert(actors[n] == actors.last());
        if kept(front, removed, statuses).contains_key(a) {
            let j = choose|j: int| 0 <= j < front.len() && (#[trigger] front[j]).actor_id == a;
            assert(actors[j].actor_id == a);
        }
        if exists|j: int| 0 <= j < actors.len() && (#[trigger] actors[j]).actor_id == a {
            let j = choose|j: int| 0 <= j < actors.len() && (#[trigger] actors[j]).actor_id == a;
            if j < n {
                assert(front[j].actor_id == a);
            }
        }
    }
}

/// After a reschedule a fragment has the actors that it had without those that go, where they were, and those
/// that come, where they are created; and no others.
pub proof fn lemma_actors_then(
    reschedule: &BTreeMap<u32, ParallelUnitReschedule>,
    ctx: &RescheduleContext,
    to_remove: &BTreeMap<u32, BTreeMap<u32, u32>>,
    to_create: &BTreeMap<u32, BTreeMap<u32, u32>>,
    places: BTreeMap<u32, BTreeMap<u32, u32>>,
    f: u32,
    a: u32,
)
    requires
        call_ensures(collect_actors_after, (reschedule, ctx, to_remove, to_create), places),
        reschedule@.contains_key(f),
    ensures
        places@.dom() =~= reschedule@.dom(),
        ({
            let goes = to_remove@.contains_key(f) && to_remove@[f]@.contains_key(a);
            let comes = to_create@.contains_key(f) && to_create@[f]@.contains_key(a);
            let actors = ctx.fragment_map@[f].actors@;
            let was = exists|j: int|
                0 <= j < actors.len() && (#[trigger] actors[j]).actor_id == a;
            &&& places@[f]@.contains_key(a) <==> comes || was && !goes
            &&& comes ==> places@[f]@[a] == to_create@[f]@[a]
            &&& !comes && was && !goes && ctx.actor_status@.contains_key(a)
                && ctx.actor_status@[a].parallel_unit is Some ==> places@[f]@[a] == unit_at(
                ctx.actor_status@,
                a,
            )
        }),
{
    let m = nested(places@);
    let all = crate::scale::arrange::all_actors_after(
        reschedule@.dom(),
        ctx.fragment_map@,
        nested(to_remove@),
        nested(to_create@),
        ctx.actor_status@,
    );
    assert(m == all);
    assert forall|g: u32| places@.contains_key(g) <==> reschedule@.contains_key(g) by {
        assert(m.contains_key(g) <==> places@.contains_key(g));
        assert(all.contains_key(g) <==> reschedule@.contains_key(g));
    }
    assert(m.contains_key(f));
    assert(m[f] == places@[f]@);
    let removed = inner(nested(to_remove@), f);
    let created = inner(nested(to_create@), f);
    assert(nested(to_remove@).contains_key(f) <==> to_remove@.contains_key(f));
    assert(nested(to_create@).contains_key(f) <==> to_create@.contains_key(f));
    lemma_kept(ctx.fragment_map@[f].actors@, removed, ctx.actor_status@, a);
}

} // verus!
