//! Where the actors of a fragment are after a reschedule, and that fragments which run side by side still do.
use crate::common::collections::{ascending_of, lemma_ascending_exists};
use crate::scale::arrange::{actors_on_units, added_count, all_actors_after, created_on, creations};
use crate::scale::arrange::{inner, kept, removals, removed_from, unit_of_actor};
use crate::scale::model::{ActorStatus, CustomActorInfo, CustomFragmentInfo, UnitChange};
use crate::scale::relation::{actor_at, actor_on, aligned};
use vstd::prelude::*;

verus! {

/// The actor in the given place runs on the parallel unit.
pub open spec fn runs_on(
    actors: Seq<CustomActorInfo>,
    statuses: Map<u32, ActorStatus>,
    i: int,
    unit: u32,
) -> bool {
    0 <= i < actors.len() && unit_of_actor(statuses, actors[i].actor_id) == Some(unit)
}

/// The parallel units that actors run on.
pub open spec fn units_of(actors: Seq<CustomActorInfo>, statuses: Map<u32, ActorStatus>) -> Set<u32> {
    Set::new(|unit: u32| exists|i: int| runs_on(actors, statuses, i, unit))
}

/// Every actor runs on a parallel unit of its own.
pub open spec fn one_each(actors: Seq<CustomActorInfo>, statuses: Map<u32, ActorStatus>) -> bool {
    &&& forall|i: int|
        0 <= i < actors.len() ==> unit_of_actor(
            statuses,
            (#[trigger] actors[i]).actor_id,
        ) is Some
    &&& forall|i: int, j: int|
        0 <= i < j < actors.len() ==> (#[trigger] actors[i]).actor_id != (
        #[trigger] actors[j]).actor_id && unit_of_actor(statuses, actors[i].actor_id)
            != unit_of_actor(statuses, actors[j].actor_id)
}

/// The parallel units of a fragment after a change.
pub open spec fn units_after(units: Set<u32>, change: UnitChange) -> Set<u32> {
    units.difference(change.removed).union(change.added)
}

/// The new ids are different, and none is that of an actor of the fragment.
pub open spec fn fresh(new_ids: Seq<u32>, actors: Seq<CustomActorInfo>) -> bool {
    &&& new_ids.no_duplicates()
    &&& forall|k: int, i: int|
        0 <= k < new_ids.len() && 0 <= i < actors.len() ==> #[trigger] new_ids[k] != (
        #[trigger] actors[i]).actor_id
}

/// On a parallel unit is the actor that runs there.
proof fn lemma_actors_on_units(
    actors: Seq<CustomActorInfo>,
    statuses: Map<u32, ActorStatus>,
    unit: u32,
)
    requires
        one_each(actors, statuses),
    ensures
        actors_on_units(actors, statuses).contains_key(unit) <==> exists|i: int|
            runs_on(actors, statuses, i, unit),
        forall|i: int| #[trigger]
            runs_on(actors, statuses, i, unit) ==> actors_on_units(actors, statuses)[unit]
                == actors[i].actor_id,
    decreases actors.len(),
{
    if actors.len() > 0 {
        let init = actors.drop_last();
        let last = actors.len() - 1;
        assert(actors[last] == actors.last());
        assert(one_each(init, statuses)) by {
            assert forall|i: int| 0 <= i < init.len() implies unit_of_actor(
                statuses,
                (#[trigger] init[i]).actor_id,
            ) is Some by {
                assert(init[i] == actors[i]);
            }
            assert forall|i: int, j: int| 0 <= i < j < init.len() implies (
            #[trigger] init[i]).actor_id != (#[trigger] init[j]).actor_id && unit_of_actor(
                statuses,
                init[i].actor_id,
            ) != unit_of_actor(statuses, init[j].actor_id) by {
                assert(init[i] == actors[i] && init[j] == actors[j]);
            }
        }
        lemma_actors_on_units(init, statuses, unit);
        assert forall|i: int| #[trigger] runs_on(actors, statuses, i, unit) implies i == last
            || runs_on(init, statuses, i, unit) by {
            if i < last {
                assert(init[i] == actors[i]);
            }
        }
        if unit_of_actor(statuses, actors[last].actor_id) == Some(unit) {
            assert(runs_on(actors, statuses, last, unit));
            assert forall|i: int| #[trigger] runs_on(actors, statuses, i, unit) implies i == last by {
                if i < last {
                    assert(unit_of_actor(statuses, actors[i].actor_id) != unit_of_actor(
                        statuses,
                        actors[last].actor_id,
                    ));
                }
            }
        } else {
            assert(unit_of_actor(statuses, actors[last].actor_id)->Some_0 != unit);
            if actors_on_units(init, statuses).contains_key(unit) {
                let i = choose|i: int| runs_on(init, statuses, i, unit);
                assert(init[i] == actors[i]);
                assert(runs_on(actors, statuses, i, unit));
            }
        }
    }
}

/// The actors that go are those on the given parallel units.
proof fn lemma_removed_from(units: Seq<u32>, on_units: Map<u32, u32>, actor: u32)
    ensures
        removed_from(units, on_units).contains_key(actor) <==> exists|k: int|
            0 <= k < units.len() && on_units.contains_key(#[trigger] units[k])
                && on_units[units[k]] == actor,
    decreases units.len(),
{
    if units.len() > 0 {
        let init = units.drop_last();
        lemma_removed_from(init, on_units, actor);
        let last = units.len() - 1;
        if removed_from(init, on_units).contains_key(actor) {
            let k = choose|k: int|
                0 <= k < init.len() && on_units.contains_key(#[trigger] init[k])
                    && on_units[init[k]] == actor;
            assert(units[k] == init[k]);
        }
        if exists|k: int|
            0 <= k < units.len() && on_units.contains_key(#[trigger] units[k])
                && on_units[units[k]] == actor {
            let k = choose|k: int|
                0 <= k < units.len() && on_units.contains_key(#[trigger] units[k])
                    && on_units[units[k]] == actor;
            if k < last {
                assert(init[k] == units[k]);
            }
        }
        if on_units.contains_key(units.last()) && on_units[units.last()] == actor {
            assert(on_units.contains_key(units[last]));
        }
    }
}

/// The actors that come are the new ones, each on its parallel unit.
proof fn lemma_created_on(units: Seq<u32>, ids: Seq<u32>)
    requires
        units.len() <= ids.len(),
        ids.no_duplicates(),
    ensures
        forall|actor: u32| #[trigger]
            created_on(units, ids).contains_key(actor) <==> exists|k: int|
                0 <= k < units.len() && #[trigger] ids[k] == actor,
        forall|k: int|
            0 <= k < units.len() ==> created_on(units, ids)[#[trigger] ids[k]] == units[k],
    decreases units.len(),
{
    if units.len() > 0 {
        let init = units.drop_last();
        lemma_created_on(init, ids);
        let last = units.len() - 1;
        assert forall|actor: u32| #[trigger]
            created_on(units, ids).contains_key(actor) <==> exists|k: int|
                0 <= k < units.len() && #[trigger] ids[k] == actor by {
            if created_on(units, ids).contains_key(actor) {
                if actor == ids[last] {
                    assert(0 <= last < units.len() && ids[last] == actor);
                } else {
                    assert(created_on(init, ids).contains_key(actor));
                    let k = choose|k: int| 0 <= k < init.len() && #[trigger] ids[k] == actor;
                    assert(0 <= k < units.len() && ids[k] == actor);
                }
            }
            if exists|k: int| 0 <= k < units.len() && #[trigger] ids[k] == actor {
                let k = choose|k: int| 0 <= k < units.len() && #[trigger] ids[k] == actor;
                if k < last {
                    assert(0 <= k < init.len() && ids[k] == actor);
                    assert(created_on(init, ids).contains_key(actor));
                }
            }
        }
        assert forall|k: int| 0 <= k < units.len() implies created_on(units, ids)[
            #[trigger] ids[k]] == units[k] by {
            if k < last {
                assert(ids[k] != ids[last]);
                assert(init[k] == units[k]);
            }
        }
    }
}

/// The actors that stay are those that do not go, where they were.
proof fn lemma_kept(
    actors: Seq<CustomActorInfo>,
    removed: Map<u32, u32>,
    statuses: Map<u32, ActorStatus>,
)
    ensures
        forall|actor: u32| #[trigger]
            kept(actors, removed, statuses).contains_key(actor) <==> !removed.contains_key(actor)
                && exists|i: int| 0 <= i < actors.len() && (#[trigger] actors[i]).actor_id == actor,
        forall|actor: u32| #[trigger]
            kept(actors, removed, statuses).contains_key(actor) ==> kept(actors, removed, statuses)[actor]
                == unit_of_actor(statuses, actor)->Some_0,
    decreases actors.len(),
{
    if actors.len() > 0 {
        let init = actors.drop_last();
        lemma_kept(init, removed, statuses);
        let last = actors.len() - 1;
        assert forall|actor: u32| #[trigger]
            kept(actors, removed, statuses).contains_key(actor) <==> !removed.contains_key(actor)
                && exists|i: int|
                0 <= i < actors.len() && (#[trigger] actors[i]).actor_id == actor by {
            let before = kept(init, removed, statuses);
            let name = actors.last().actor_id;
            assert(kept(actors, removed, statuses).contains_key(actor) <==> before.contains_key(
                actor,
            ) || (actor == name && !removed.contains_key(name)));
            if before.contains_key(actor) {
                let i = choose|i: int| 0 <= i < init.len() && (#[trigger] init[i]).actor_id == actor;
                assert(actors[i] == init[i]);
            }
            if actor == name {
                assert(actors[last].actor_id == actor);
            }
            if !removed.contains_key(actor) && exists|i: int|
                0 <= i < actors.len() && (#[trigger] actors[i]).actor_id == actor {
                let i = choose|i: int|
                    0 <= i < actors.len() && (#[trigger] actors[i]).actor_id == actor;
                if i < last {
                    assert(init[i] == actors[i]);
                    assert(before.contains_key(actor));
                }
            }
        }
        assert forall|actor: u32| #[trigger]
            kept(actors, removed, statuses).contains_key(actor) implies kept(
            actors,
            removed,
            statuses,
        )[actor] == unit_of_actor(statuses, actor)->Some_0 by {
            let before = kept(init, removed, statuses);
            assert(before.contains_key(actor) ==> before[actor] == unit_of_actor(
                statuses,
                actor,
            )->Some_0);
        }
    }
}

/// What goes from a fragment is what goes by its own change.
proof fn lemma_removals(
    ids: Seq<u32>,
    plans: Map<u32, UnitChange>,
    fragments: Map<u32, &CustomFragmentInfo>,
    statuses: Map<u32, ActorStatus>,
    f: u32,
)
    requires
        ids.no_duplicates(),
    ensures
        inner(removals(ids, plans, fragments, statuses), f) == (if ids.contains(f) {
            removed_from(
                ascending_of(plans[f].removed),
                actors_on_units(fragments[f].actors@, statuses),
            )
        } else {
            Map::empty()
        }),
    decreases ids.len(),
{
    if ids.len() > 0 {
        let init = ids.drop_last();
        lemma_removals(init, plans, fragments, statuses, f);
        let last = ids.len() - 1;
        if ids.last() == f {
            assert(ids[last] == f);
            assert(!init.contains(f)) by {
                if init.contains(f) {
                    let k = init.index_of(f);
                    assert(ids[k] == f);
                }
            }
            let removed = removed_from(
                ascending_of(plans[f].removed),
                actors_on_units(fragments[f].actors@, statuses),
            );
            if removed.dom().is_empty() {
                assert(removed =~= Map::empty());
            }
        } else {
            assert(ids.contains(f) <==> init.contains(f)) by {
                if ids.contains(f) {
                    let k = ids.index_of(f);
                    assert(init[k] == f);
                }
                if init.contains(f) {
                    let k = init.index_of(f);
                    assert(ids[k] == f);
                }
            }
        }
    }
}

/// What a fragment gets is made from some of the new ids.
proof fn lemma_creations(
    ids: Seq<u32>,
    plans: Map<u32, UnitChange>,
    new_ids: Seq<u32>,
    f: u32,
) -> (from: nat)
    requires
        ids.no_duplicates(),
    ensures
        !ids.contains(f) ==> inner(creations(ids, plans, new_ids), f) == Map::<u32, u32>::empty(),
        ids.contains(f) ==> from + plans[f].added.len() <= added_count(ids, plans) && inner(
            creations(ids, plans, new_ids),
            f,
        ) == created_on(ascending_of(plans[f].added), new_ids.skip(from as int)),
    decreases ids.len(),
{
    if ids.len() == 0 {
        0
    } else {
        let init = ids.drop_last();
        let before = lemma_creations(init, plans, new_ids, f);
        let last = ids.len() - 1;
        if ids.last() == f {
            assert(ids[last] == f);
            assert(!init.contains(f)) by {
                if init.contains(f) {
                    let k = init.index_of(f);
                    assert(ids[k] == f);
                }
            }
            let from = added_count(init, plans);
            let created = created_on(ascending_of(plans[f].added), new_ids.skip(from as int));
            if created.dom().is_empty() {
                assert(created =~= Map::empty());
            }
            from
        } else {
            assert(ids.contains(f) <==> init.contains(f)) by {
                if ids.contains(f) {
                    let k = ids.index_of(f);
                    assert(init[k] == f);
                }
                if init.contains(f) {
                    let k = init.index_of(f);
                    assert(ids[k] == f);
                }
            }
            before
        }
    }
}

/// After a reschedule the actors of a fragment are on the parallel units where they were, without those that
/// are given up and with those that are added: an actor is on each, and none is anywhere else.
pub proof fn lemma_units_after(
    plans: Map<u32, UnitChange>,
    fragments: Map<u32, &CustomFragmentInfo>,
    statuses: Map<u32, ActorStatus>,
    new_ids: Seq<u32>,
    f: u32,
)
    requires
        plans.dom().finite(),
        plans.contains_key(f),
        plans[f].added.finite(),
        plans[f].removed.finite(),
        one_each(fragments[f].actors@, statuses),
        added_count(ascending_of(plans.dom()), plans) <= new_ids.len(),
        fresh(new_ids, fragments[f].actors@),
    ensures
        ({
            let ids = ascending_of(plans.dom());
            let places = all_actors_after(
                plans.dom(),
                fragments,
                removals(ids, plans, fragments, statuses),
                creations(ids, plans, new_ids),
                statuses,
            );
            &&& places.contains_key(f)
            &&& places[f].dom().finite()
            &&& places[f].values() == units_after(
                units_of(fragments[f].actors@, statuses),
                plans[f],
            )
        }),
{
    let ids = ascending_of(plans.dom());
    let actors = fragments[f].actors@;
    let change = plans[f];
    lemma_ascending_exists(plans.dom());
    lemma_ascending_exists(change.added);
    lemma_ascending_exists(change.removed);
    assert(ids.no_duplicates());
    assert(ids.contains(f)) by {
        assert(ids.to_set().contains(f));
    }
    let to_remove = removals(ids, plans, fragments, statuses);
    let to_create = creations(ids, plans, new_ids);
    lemma_removals(ids, plans, fragments, statuses, f);
    let from = lemma_creations(ids, plans, new_ids, f);
    let on_units = actors_on_units(actors, statuses);
    let gone_units = ascending_of(change.removed);
    let removed = removed_from(gone_units, on_units);
    let own_ids = new_ids.skip(from as int);
    let added_units = ascending_of(change.added);
    let created = created_on(added_units, own_ids);
    assert(own_ids.no_duplicates());
    lemma_created_on(added_units, own_ids);
    lemma_kept(actors, removed, statuses);
    let stay = kept(actors, removed, statuses);
    let places = stay.union_prefer_right(created);
    lemma_kept_finite(actors, removed, statuses);
    lemma_created_finite(added_units, own_ids);
    assert(places.dom() =~= stay.dom().union(created.dom()));
    // A unit that an actor stays on is not given up.
    assert forall|i: int| 0 <= i < actors.len() implies (removed.contains_key(
        (#[trigger] actors[i]).actor_id,
    ) <==> change.removed.contains(unit_of_actor(statuses, actors[i].actor_id)->Some_0)) by {
        let unit = unit_of_actor(statuses, actors[i].actor_id)->Some_0;
        let actor = actors[i].actor_id;
        lemma_removed_from(gone_units, on_units, actor);
        lemma_actors_on_units(actors, statuses, unit);
        assert(runs_on(actors, statuses, i, unit));
        if change.removed.contains(unit) {
            assert(gone_units.to_set().contains(unit));
            let k = gone_units.index_of(unit);
            assert(on_units.contains_key(gone_units[k]));
        }
        if removed.contains_key(actor) {
            let k = choose|k: int|
                0 <= k < gone_units.len() && on_units.contains_key(#[trigger] gone_units[k])
                    && on_units[gone_units[k]] == actor;
            lemma_actors_on_units(actors, statuses, gone_units[k]);
            let j = choose|j: int| runs_on(actors, statuses, j, gone_units[k]);
            assert(actors[j].actor_id == actor);
            assert(i == j);
            assert(gone_units.to_set().contains(gone_units[k]));
        }
    }
    // New actors are not among those that stay.
    assert forall|actor: u32| #[trigger] created.contains_key(actor) implies !stay.contains_key(
        actor,
    ) by {
        let k = choose|k: int| 0 <= k < added_units.len() && #[trigger] own_ids[k] == actor;
        assert(own_ids[k] == new_ids[from + k]);
        if stay.contains_key(actor) {
            let i = choose|i: int| 0 <= i < actors.len() && (#[trigger] actors[i]).actor_id == actor;
            assert(new_ids[from + k] != actors[i].actor_id);
        }
    }
    let before = units_of(actors, statuses);
    assert forall|unit: u32| #[trigger] places.values().contains(unit) <==> units_after(
        before,
        change,
    ).contains(unit) by {
        if places.values().contains(unit) {
            let actor = choose|actor: u32| places.contains_key(actor) && places[actor] == unit;
            if created.contains_key(actor) {
                let k = choose|k: int| 0 <= k < added_units.len() && #[trigger] own_ids[k] == actor;
                assert(created[own_ids[k]] == added_units[k]);
                assert(added_units.to_set().contains(added_units[k]));
            } else {
                assert(stay.contains_key(actor));
                let i = choose|i: int|
                    0 <= i < actors.len() && (#[trigger] actors[i]).actor_id == actor;
                assert(stay[actor] == unit_of_actor(statuses, actor)->Some_0);
                assert(unit_of_actor(statuses, actors[i].actor_id) is Some);
                assert(runs_on(actors, statuses, i, unit));
                assert(!change.removed.contains(unit));
            }
        }
        if change.added.contains(unit) {
            assert(added_units.to_set().contains(unit));
            let k = added_units.index_of(unit);
            assert(created.contains_key(own_ids[k])) by {
                assert(0 <= k < added_units.len() && own_ids[k] == own_ids[k]);
            }
            assert(places.contains_key(own_ids[k]) && places[own_ids[k]] == unit);
        } else if before.contains(unit) && !change.removed.contains(unit) {
            let i = choose|i: int| runs_on(actors, statuses, i, unit);
            let actor = actors[i].actor_id;
            assert(!removed.contains_key(actor));
            assert(stay.contains_key(actor));
            assert(places.contains_key(actor) && places[actor] == unit);
        }
    }
    assert(places.values() =~= units_after(before, change));
}

/// No two actors are on the same parallel unit.
pub open spec fn apart_on_units(places: Map<u32, u32>) -> bool {
    forall|a: u32, b: u32|
        #![trigger places[a], places[b]]
        places.contains_key(a) && places.contains_key(b) && places[a] == places[b] ==> a == b
}

/// After a reschedule that puts no actor where another stays, no two actors of the fragment are on
/// the same parallel unit.
pub proof fn lemma_apart_after(
    plans: Map<u32, UnitChange>,
    fragments: Map<u32, &CustomFragmentInfo>,
    statuses: Map<u32, ActorStatus>,
    new_ids: Seq<u32>,
    f: u32,
)
    requires
        plans.dom().finite(),
        plans.contains_key(f),
        plans[f].added.finite(),
        plans[f].removed.finite(),
        forall|unit: u32| #[trigger]
            plans[f].added.contains(unit) && units_of(fragments[f].actors@, statuses).contains(unit)
                ==> plans[f].removed.contains(unit),
        one_each(fragments[f].actors@, statuses),
        added_count(ascending_of(plans.dom()), plans) <= new_ids.len(),
        fresh(new_ids, fragments[f].actors@),
    ensures
        ({
            let ids = ascending_of(plans.dom());
            let places = all_actors_after(
                plans.dom(),
                fragments,
                removals(ids, plans, fragments, statuses),
                creations(ids, plans, new_ids),
                statuses,
            );
            apart_on_units(places[f])
        }),
{
    let ids = ascending_of(plans.dom());
    let actors = fragments[f].actors@;
    let change = plans[f];
    lemma_ascending_exists(plans.dom());
    lemma_ascending_exists(change.added);
    lemma_ascending_exists(change.removed);
    assert(ids.contains(f)) by {
        assert(ids.to_set().contains(f));
    }
    lemma_removals(ids, plans, fragments, statuses, f);
    let from = lemma_creations(ids, plans, new_ids, f);
    let on_units = actors_on_units(actors, statuses);
    let gone_units = ascending_of(change.removed);
    let removed = removed_from(gone_units, on_units);
    let own_ids = new_ids.skip(from as int);
    let added_units = ascending_of(change.added);
    let created = created_on(added_units, own_ids);
    lemma_created_on(added_units, own_ids);
    lemma_kept(actors, removed, statuses);
    let stay = kept(actors, removed, statuses);
    let places = stay.union_prefer_right(created);
    // An actor that stays is on a unit that is not given up.
    assert forall|a: u32| #[trigger] stay.contains_key(a) implies units_of(
        actors,
        statuses,
    ).contains(stay[a]) && !change.removed.contains(stay[a]) by {
        let i = choose|i: int| 0 <= i < actors.len() && (#[trigger] actors[i]).actor_id == a;
        let unit = stay[a];
        assert(unit_of_actor(statuses, actors[i].actor_id) is Some);
        assert(runs_on(actors, statuses, i, unit));
        if change.removed.contains(unit) {
            assert(gone_units.to_set().contains(unit));
            let k = gone_units.index_of(unit);
            lemma_actors_on_units(actors, statuses, unit);
            assert(on_units.contains_key(gone_units[k]));
            lemma_removed_from(gone_units, on_units, a);
        }
    }
    assert forall|a: u32| #[trigger] created.contains_key(a) implies change.added.contains(
        created[a],
    ) by {
        let k = choose|k: int| 0 <= k < added_units.len() && #[trigger] own_ids[k] == a;
        assert(created[own_ids[k]] == added_units[k]);
        assert(added_units.to_set().contains(added_units[k]));
    }
    assert forall|a: u32, b: u32|
        #![trigger places[a], places[b]]
        places.contains_key(a) && places.contains_key(b) && places[a] == places[b] implies a == b by {
        if created.contains_key(a) && created.contains_key(b) {
            let j = choose|k: int| 0 <= k < added_units.len() && #[trigger] own_ids[k] == a;
            let k = choose|k: int| 0 <= k < added_units.len() && #[trigger] own_ids[k] == b;
            assert(created[own_ids[j]] == added_units[j]);
            assert(created[own_ids[k]] == added_units[k]);
        } else if created.contains_key(a) {
            assert(stay.contains_key(b));
            assert(change.added.contains(places[a]));
        } else if created.contains_key(b) {
            assert(stay.contains_key(a));
            assert(change.added.contains(places[b]));
        } else {
            let i = choose|i: int| 0 <= i < actors.len() && (#[trigger] actors[i]).actor_id == a;
            let j = choose|i: int| 0 <= i < actors.len() && (#[trigger] actors[i]).actor_id == b;
            assert(stay.contains_key(a) && stay.contains_key(b));
            assert(unit_of_actor(statuses, actors[i].actor_id) is Some);
            assert(unit_of_actor(statuses, actors[j].actor_id) is Some);
            assert(i == j);
        }
    }
}

/// Only actors of the fragment go, only new ones come, afterwards the fragment has those that come
/// and those that do not go, and the numbers of both leave an actor where the fragment has one
/// afterwards.
pub proof fn lemma_actors_change(
    plans: Map<u32, UnitChange>,
    fragments: Map<u32, &CustomFragmentInfo>,
    statuses: Map<u32, ActorStatus>,
    new_ids: Seq<u32>,
    f: u32,
)
    requires
        plans.dom().finite(),
        plans.contains_key(f),
        plans[f].added.finite(),
        plans[f].removed.finite(),
        one_each(fragments[f].actors@, statuses),
        added_count(ascending_of(plans.dom()), plans) <= new_ids.len(),
        fresh(new_ids, fragments[f].actors@),
    ensures
        ({
            let ids = ascending_of(plans.dom());
            let actors = fragments[f].actors@;
            let to_remove = removals(ids, plans, fragments, statuses);
            let to_create = creations(ids, plans, new_ids);
            let places = all_actors_after(plans.dom(), fragments, to_remove, to_create, statuses);
            let removed = inner(to_remove, f).dom();
            let created = inner(to_create, f).dom();
            &&& forall|a: u32| #[trigger]
                removed.contains(a) ==> exists|i: int|
                    0 <= i < actors.len() && (#[trigger] actors[i]).actor_id == a
            &&& forall|a: u32| #[trigger] created.contains(a) ==> new_ids.contains(a)
            &&& created.finite()
            &&& created.len() <= new_ids.len()
            &&& forall|a: u32| #[trigger]
                places[f].contains_key(a) <==> created.contains(a) || (!removed.contains(a)
                    && exists|i: int| 0 <= i < actors.len() && (#[trigger] actors[i]).actor_id == a)
            &&& places[f].dom().len() > 0 ==> actors.len() - removed.len() + created.len() > 0
        }),
{
    let ids = ascending_of(plans.dom());
    let actors = fragments[f].actors@;
    let change = plans[f];
    lemma_ascending_exists(plans.dom());
    lemma_ascending_exists(change.added);
    assert(ids.contains(f)) by {
        assert(ids.to_set().contains(f));
    }
    lemma_removals(ids, plans, fragments, statuses, f);
    let from = lemma_creations(ids, plans, new_ids, f);
    let on_units = actors_on_units(actors, statuses);
    let gone_units = ascending_of(change.removed);
    let removed = removed_from(gone_units, on_units);
    let own_ids = new_ids.skip(from as int);
    let added_units = ascending_of(change.added);
    let created = created_on(added_units, own_ids);
    lemma_created_on(added_units, own_ids);
    lemma_created_finite(added_units, own_ids);
    lemma_kept(actors, removed, statuses);
    lemma_kept_finite(actors, removed, statuses);
    let stay = kept(actors, removed, statuses);
    let names = Seq::new(actors.len(), |i: int| actors[i].actor_id);
    assert forall|a: u32| #[trigger] removed.dom().contains(a) implies exists|i: int|
        0 <= i < actors.len() && (#[trigger] actors[i]).actor_id == a by {
        lemma_removed_from(gone_units, on_units, a);
        let k = choose|k: int|
            0 <= k < gone_units.len() && on_units.contains_key(#[trigger] gone_units[k])
                && on_units[gone_units[k]] == a;
        lemma_actors_on_units(actors, statuses, gone_units[k]);
        let j = choose|j: int| runs_on(actors, statuses, j, gone_units[k]);
        assert(actors[j].actor_id == a);
    }
    assert forall|a: u32| #[trigger] created.dom().contains(a) implies new_ids.contains(a) by {
        assert(created.contains_key(a));
        let k = choose|k: int| 0 <= k < added_units.len() && #[trigger] own_ids[k] == a;
        assert(new_ids[from + k] == a);
    }
    assert(names.no_duplicates()) by {
        assert forall|i: int, j: int| 0 <= i < j < names.len() implies names[i] != names[j] by {
            assert(actors[i].actor_id != actors[j].actor_id);
        }
    }
    names.unique_seq_to_set();
    new_ids.unique_seq_to_set();
    assert forall|a: u32| removed.dom().contains(a) implies #[trigger] names.to_set().contains(a) by {
        let i = choose|i: int| 0 <= i < actors.len() && (#[trigger] actors[i]).actor_id == a;
        assert(names[i] == a);
    }
    vstd::set_lib::lemma_len_subset(created.dom(), new_ids.to_set());
    vstd::set_lib::lemma_len_subset(removed.dom(), names.to_set());
    let places = stay.union_prefer_right(created);
    assert(places.dom() =~= stay.dom().union(created.dom()));
    if places.dom().len() > 0 && created.dom().len() == 0 {
        assert(created.dom() =~= Set::empty());
        assert(places.dom() =~= stay.dom());
        let a = stay.dom().choose();
        assert(stay.dom().contains(a));
        assert(stay.contains_key(a));
        let i = choose|i: int| 0 <= i < actors.len() && (#[trigger] actors[i]).actor_id == a;
        assert(names[i] == a);
        assert(removed.dom().subset_of(names.to_set().remove(a)));
        vstd::set_lib::lemma_len_subset(removed.dom(), names.to_set().remove(a));
    }
}

/// Finitely many actors stay.
proof fn lemma_kept_finite(
    actors: Seq<CustomActorInfo>,
    removed: Map<u32, u32>,
    statuses: Map<u32, ActorStatus>,
)
    ensures
        kept(actors, removed, statuses).dom().finite(),
    decreases actors.len(),
{
    if actors.len() > 0 {
        lemma_kept_finite(actors.drop_last(), removed, statuses);
    }
}

/// Finitely many actors come.
proof fn lemma_created_finite(units: Seq<u32>, ids: Seq<u32>)
    ensures
        created_on(units, ids).dom().finite(),
    decreases units.len(),
{
    if units.len() > 0 {
        lemma_created_finite(units.drop_last(), ids);
    }
}

/// An actor is found on every parallel unit that one is on.
proof fn lemma_actor_on(ids: Seq<u32>, places: Map<u32, u32>, unit: u32, k: int)
    requires
        0 <= k < ids.len(),
        places[ids[k]] == unit,
    ensures
        actor_on(ids, places, unit) is Some,
    decreases ids.len(),
{
    if k < ids.len() - 1 {
        assert(ids.drop_last()[k] == ids[k]);
        lemma_actor_on(ids.drop_last(), places, unit, k);
    }
}

/// Fragments whose actors run side by side, each next to one of the other on the same parallel unit, still do
/// after a reschedule that changes both in the same way.
pub proof fn lemma_alignment_kept(
    plans: Map<u32, UnitChange>,
    fragments: Map<u32, &CustomFragmentInfo>,
    statuses: Map<u32, ActorStatus>,
    new_ids: Seq<u32>,
    f: u32,
    g: u32,
)
    requires
        plans.dom().finite(),
        plans.contains_key(f),
        plans.contains_key(g),
        plans[f] == plans[g],
        plans[f].added.finite(),
        plans[f].removed.finite(),
        one_each(fragments[f].actors@, statuses),
        one_each(fragments[g].actors@, statuses),
        units_of(fragments[f].actors@, statuses) == units_of(fragments[g].actors@, statuses),
        added_count(ascending_of(plans.dom()), plans) <= new_ids.len(),
        fresh(new_ids, fragments[f].actors@),
        fresh(new_ids, fragments[g].actors@),
    ensures
        ({
            let ids = ascending_of(plans.dom());
            let places = all_actors_after(
                plans.dom(),
                fragments,
                removals(ids, plans, fragments, statuses),
                creations(ids, plans, new_ids),
                statuses,
            );
            aligned(places[f], places[g])
        }),
{
    let ids = ascending_of(plans.dom());
    let places = all_actors_after(
        plans.dom(),
        fragments,
        removals(ids, plans, fragments, statuses),
        creations(ids, plans, new_ids),
        statuses,
    );
    lemma_units_after(plans, fragments, statuses, new_ids, f);
    lemma_units_after(plans, fragments, statuses, new_ids, g);
    assert forall|a: u32| #[trigger] places[f].contains_key(a) implies actor_at(
        places[g],
        places[f][a],
    ) is Some by {
        let unit = places[f][a];
        assert(places[f].values().contains(unit));
        assert(places[g].values().contains(unit));
        let b = choose|b: u32| places[g].contains_key(b) && places[g][b] == unit;
        lemma_ascending_exists(places[g].dom());
        let order = ascending_of(places[g].dom());
        assert(order.to_set().contains(b));
        let k = order.index_of(b);
        lemma_actor_on(order, places[g], unit, k);
    }
}

} // verus!
