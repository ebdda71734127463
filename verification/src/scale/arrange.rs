//! Which actors a reschedule removes and creates, and where the actors are afterwards.
use crate::common::collections::{ascending_of, map_keys, set_to_vec};
use crate::scale::context::RescheduleContext;
use crate::scale::model::{ActorStatus, CustomActorInfo, CustomFragmentInfo};
use crate::scale::model::{ParallelUnitReschedule, ScaleError, UnitChange};
use crate::scale::no_shuffle::plans_of;
use std::collections::BTreeMap;
use std::collections::BTreeSet;
use vstd::prelude::*;

verus! {

broadcast use {
    vstd::std_specs::btree::group_btree_axioms,
    vstd::laws_cmp::group_laws_cmp,
};

/// The maps behind a map of maps.
pub open spec fn nested(m: Map<u32, BTreeMap<u32, u32>>) -> Map<u32, Map<u32, u32>> {
    Map::new(|k: u32| m.contains_key(k), |k: u32| m[k]@)
}

/// The inner map under a key; the empty map where there is none.
pub open spec fn inner(m: Map<u32, Map<u32, u32>>, k: u32) -> Map<u32, u32> {
    if m.contains_key(k) {
        m[k]
    } else {
        Map::empty()
    }
}

/// The parallel unit that an actor runs on, if that is known.
pub open spec fn unit_of_actor(statuses: Map<u32, ActorStatus>, actor_id: u32) -> Option<u32> {
    if statuses.contains_key(actor_id) {
        match statuses[actor_id].parallel_unit {
            Some(unit) => Some(unit.id),
            None => None,
        }
    } else {
        None
    }
}

/// The first of the given actors of which no place is known.
pub open spec fn first_unplaced(
    actors: Seq<CustomActorInfo>,
    statuses: Map<u32, ActorStatus>,
) -> Option<u32>
    decreases actors.len(),
{
    if actors.len() == 0 {
        None
    } else if unit_of_actor(statuses, actors[0].actor_id) is None {
        Some(actors[0].actor_id)
    } else {
        first_unplaced(actors.skip(1), statuses)
    }
}

/// The actor on each parallel unit.
pub open spec fn actors_on_units(
    actors: Seq<CustomActorInfo>,
    statuses: Map<u32, ActorStatus>,
) -> Map<u32, u32>
    decreases actors.len(),
{
    if actors.len() == 0 {
        Map::empty()
    } else {
        actors_on_units(actors.drop_last(), statuses).insert(
            unit_of_actor(statuses, actors.last().actor_id)->Some_0,
            actors.last().actor_id,
        )
    }
}

/// The actors on the given parallel units, with the units.
pub open spec fn removed_from(units: Seq<u32>, on_units: Map<u32, u32>) -> Map<u32, u32>
    decreases units.len(),
{
    if units.len() == 0 {
        Map::empty()
    } else {
        let m = removed_from(units.drop_last(), on_units);
        if on_units.contains_key(units.last()) {
            m.insert(on_units[units.last()], units.last())
        } else {
            m
        }
    }
}

/// The new actors, of which the given parallel units get one each.
pub open spec fn created_on(units: Seq<u32>, ids: Seq<u32>) -> Map<u32, u32>
    decreases units.len(),
{
    if units.len() == 0 {
        Map::empty()
    } else {
        created_on(units.drop_last(), ids).insert(ids[units.len() - 1], units.last())
    }
}

/// The number of actors that the given fragments get.
pub open spec fn added_count(ids: Seq<u32>, plans: Map<u32, UnitChange>) -> nat
    decreases ids.len(),
{
    if ids.len() == 0 {
        0
    } else {
        added_count(ids.drop_last(), plans) + plans[ids.last()].added.len()
    }
}

/// The actors that leave the given fragments; a fragment that loses none is not listed.
pub open spec fn removals(
    ids: Seq<u32>,
    plans: Map<u32, UnitChange>,
    fragments: Map<u32, &CustomFragmentInfo>,
    statuses: Map<u32, ActorStatus>,
) -> Map<u32, Map<u32, u32>>
    decreases ids.len(),
{
    if ids.len() == 0 {
        Map::empty()
    } else {
        let m = removals(ids.drop_last(), plans, fragments, statuses);
        let f = ids.last();
        let removed = removed_from(
            ascending_of(plans[f].removed),
            actors_on_units(fragments[f].actors@, statuses),
        );
        if removed.dom().is_empty() {
            m
        } else {
            m.insert(f, removed)
        }
    }
}

/// The actors that the given fragments get, from the new ids in order; a fragment that gets none
/// is not listed.
pub open spec fn creations(
    ids: Seq<u32>,
    plans: Map<u32, UnitChange>,
    new_ids: Seq<u32>,
) -> Map<u32, Map<u32, u32>>
    decreases ids.len(),
{
    if ids.len() == 0 {
        Map::empty()
    } else {
        let m = creations(ids.drop_last(), plans, new_ids);
        let f = ids.last();
        let created = created_on(
            ascending_of(plans[f].added),
            new_ids.skip(added_count(ids.drop_last(), plans) as int),
        );
        if created.dom().is_empty() {
            m
        } else {
            m.insert(f, created)
        }
    }
}

/// The first actor of the given fragments of which no place is known.
pub open spec fn first_unplaced_in(
    ids: Seq<u32>,
    fragments: Map<u32, &CustomFragmentInfo>,
    statuses: Map<u32, ActorStatus>,
) -> Option<u32>
    decreases ids.len(),
{
    if ids.len() == 0 {
        None
    } else {
        match first_unplaced(fragments[ids[0]].actors@, statuses) {
            Some(a) => Some(a),
            None => first_unplaced_in(ids.skip(1), fragments, statuses),
        }
    }
}

impl<'a> RescheduleContext<'a> {
    /// The parallel unit that an actor runs on.
    pub fn actor_id_to_parallel_unit(&self, actor_id: u32) -> (res: Result<u32, ScaleError>)
        ensures
            res == (match unit_of_actor(self.actor_status@, actor_id) {
                Some(unit) => Ok(unit),
                None => Err(ScaleError::ActorWithoutParallelUnit { actor_id }),
            }),
    {
        match self.actor_status.get(&actor_id) {
            Some(status) => match status.parallel_unit {
                Some(unit) => Ok(unit.id),
                None => Err(ScaleError::ActorWithoutParallelUnit { actor_id }),
            },
            None => Err(ScaleError::ActorWithoutParallelUnit { actor_id }),
        }
    }
}

/// The actor on each parallel unit of a fragment.
fn collect_actors_on_units(ctx: &RescheduleContext, actors: &Vec<CustomActorInfo>) -> (res: Result<
    BTreeMap<u32, u32>,
    ScaleError,
>)
    ensures
        match res {
            Ok(m) => first_unplaced(actors@, ctx.actor_status@) is None && m@ == actors_on_units(
                actors@,
                ctx.actor_status@,
            ),
            Err(e) => first_unplaced(actors@, ctx.actor_status@) matches Some(actor_id) && e == (
            ScaleError::ActorWithoutParallelUnit { actor_id }),
        },
{
    let ghost statuses = ctx.actor_status@;
    let mut m: BTreeMap<u32, u32> = BTreeMap::new();
    let mut i: usize = 0;
    assert(actors@.take(0) =~= Seq::<CustomActorInfo>::empty());
    assert(actors@.skip(0) =~= actors@);
    while i < actors.len()
        invariant
            i <= actors.len(),
            statuses == ctx.actor_status@,
            m@ == actors_on_units(actors@.take(i as int), statuses),
            first_unplaced(actors@, statuses) == first_unplaced(actors@.skip(i as int), statuses),
        decreases actors.len() - i,
    {
        assert(actors@.skip(i as int)[0] == actors@[i as int]);
        assert(actors@.skip(i as int).skip(1) =~= actors@.skip(i + 1));
        assert(actors@.take(i + 1).drop_last() =~= actors@.take(i as int));
        let actor_id: u32 = actors[i].actor_id;
        match ctx.actor_id_to_parallel_unit(actor_id) {
            Ok(unit) => {
                m.insert(unit, actor_id);
            },
            Err(e) => {
                return Err(e);
            },
        }
        i = i + 1;
    }
    assert(actors@.take(i as int) =~= actors@);
    assert(actors@.skip(i as int) =~= Seq::<CustomActorInfo>::empty());
    Ok(m)
}

/// The actors on the parallel units of a set, with the units.
fn collect_removed(units: &BTreeSet<u32>, on_units: &BTreeMap<u32, u32>) -> (res: BTreeMap<u32, u32>)
    ensures
        res@ == removed_from(ascending_of(units@), on_units@),
{
    let v = set_to_vec(units);
    let mut res: BTreeMap<u32, u32> = BTreeMap::new();
    let mut i: usize = 0;
    assert(v@.take(0) =~= Seq::<u32>::empty());
    while i < v.len()
        invariant
            i <= v.len(),
            res@ == removed_from(v@.take(i as int), on_units@),
        decreases v.len() - i,
    {
        assert(v@.take(i + 1).drop_last() =~= v@.take(i as int));
        if let Some(actor_id) = on_units.get(&v[i]) {
            res.insert(*actor_id, v[i]);
        }
        i = i + 1;
    }
    assert(v@.take(i as int) =~= v@);
    res
}

/// The new actors on the parallel units of a set.
fn collect_created(units: &BTreeSet<u32>, new_ids: &Vec<u32>, from: usize) -> (res: BTreeMap<u32, u32>)
    requires
        from + units@.len() <= new_ids.len(),
    ensures
        res@ == created_on(ascending_of(units@), new_ids@.skip(from as int)),
{
    let v = set_to_vec(units);
    let ghost ids = new_ids@.skip(from as int);
    let mut res: BTreeMap<u32, u32> = BTreeMap::new();
    let mut i: usize = 0;
    assert(v@.take(0) =~= Seq::<u32>::empty());
    while i < v.len()
        invariant
            i <= v.len(),
            from + v.len() <= new_ids.len(),
            ids == new_ids@.skip(from as int),
            res@ == created_on(v@.take(i as int), ids),
        decreases v.len() - i,
    {
        assert(v@.take(i + 1).drop_last() =~= v@.take(i as int));
        assert(ids[i as int] == new_ids@[from + i]);
        res.insert(new_ids[from + i], v[i]);
        i = i + 1;
    }
    assert(v@.take(i as int) =~= v@);
    res
}

/// Which actors the reschedule removes and which it creates, by fragment. The ids of the new
/// actors are taken from `new_actor_ids` in order.
pub fn arrange_reschedules(
    reschedule: &BTreeMap<u32, ParallelUnitReschedule>,
    ctx: &RescheduleContext,
    new_actor_ids: &Vec<u32>,
) -> (res: Result<
    (BTreeMap<u32, BTreeMap<u32, u32>>, BTreeMap<u32, BTreeMap<u32, u32>>),
    ScaleError,
>)
    requires
        forall|f: u32| #[trigger]
            reschedule@.contains_key(f) ==> ctx.fragment_map@.contains_key(f),
        added_count(ascending_of(reschedule@.dom()), plans_of(reschedule@)) == new_actor_ids.len(),
    ensures
        match res {
            Ok((to_remove, to_create)) => {
                let ids = ascending_of(reschedule@.dom());
                &&& first_unplaced_in(ids, ctx.fragment_map@, ctx.actor_status@) is None
                &&& nested(to_remove@) == removals(
                    ids,
                    plans_of(reschedule@),
                    ctx.fragment_map@,
                    ctx.actor_status@,
                )
                &&& nested(to_create@) == creations(ids, plans_of(reschedule@), new_actor_ids@)
            },
            Err(e) => first_unplaced_in(
                ascending_of(reschedule@.dom()),
                ctx.fragment_map@,
                ctx.actor_status@,
            ) matches Some(actor_id) && e == (ScaleError::ActorWithoutParallelUnit { actor_id }),
        },
{
    let ids = map_keys(reschedule);
    let ghost plans = plans_of(reschedule@);
    let ghost frags = ctx.fragment_map@;
    let ghost statuses = ctx.actor_status@;
    let mut to_remove: BTreeMap<u32, BTreeMap<u32, u32>> = BTreeMap::new();
    let mut to_create: BTreeMap<u32, BTreeMap<u32, u32>> = BTreeMap::new();
    let mut used: usize = 0;
    let mut i: usize = 0;
    assert(ids@.take(0) =~= Seq::<u32>::empty());
    assert(ids@.skip(0) =~= ids@);
    assert(nested(to_remove@) =~= Map::<u32, Map<u32, u32>>::empty());
    assert(nested(to_create@) =~= Map::<u32, Map<u32, u32>>::empty());
    while i < ids.len()
        invariant
            i <= ids.len(),
            ids@.to_set() == reschedule@.dom(),
            ids@ == ascending_of(reschedule@.dom()),
            plans == plans_of(reschedule@),
            frags == ctx.fragment_map@,
            statuses == ctx.actor_status@,
            forall|f: u32| #[trigger] reschedule@.contains_key(f) ==> frags.contains_key(f),
            added_count(ids@, plans) == new_actor_ids.len(),
            used == added_count(ids@.take(i as int), plans),
            nested(to_remove@) == removals(ids@.take(i as int), plans, frags, statuses),
            nested(to_create@) == creations(ids@.take(i as int), plans, new_actor_ids@),
            first_unplaced_in(ids@, frags, statuses) == first_unplaced_in(
                ids@.skip(i as int),
                frags,
                statuses,
            ),
        decreases ids.len() - i,
    {
        let f: u32 = ids[i];
        assert(ids@.to_set().contains(ids@[i as int]));
        assert(reschedule@.contains_key(f));
        assert(ids@.skip(i as int)[0] == f);
        assert(ids@.skip(i as int).skip(1) =~= ids@.skip(i + 1));
        assert(ids@.take(i + 1).drop_last() =~= ids@.take(i as int));
        assert(ids@.take(i + 1).last() == f);
        let plan = reschedule.get(&f).unwrap();
        let fragment: &CustomFragmentInfo = *ctx.fragment_map.get(&f).unwrap();
        let on_units = match collect_actors_on_units(ctx, &fragment.actors) {
            Ok(on_units) => on_units,
            Err(e) => {
                return Err(e);
            },
        };
        let removed = collect_removed(&plan.removed_parallel_units, &on_units);
        proof {
            lemma_added_prefix(ids@, plans, i + 1);
        }
        let created = collect_created(&plan.added_parallel_units, new_actor_ids, used);
        used = used + plan.added_parallel_units.len();
        let ghost r0 = to_remove@;
        let ghost c0 = to_create@;
        assert(removed@.dom().is_empty() <==> removed.len() == 0);
        assert(created@.dom().is_empty() <==> created.len() == 0);
        if removed.len() > 0 {
            let ghost m = removed@;
            to_remove.insert(f, removed);
            assert(nested(to_remove@) =~= nested(r0).insert(f, m));
        }
        if created.len() > 0 {
            let ghost m = created@;
            to_create.insert(f, created);
            assert(nested(to_create@) =~= nested(c0).insert(f, m));
        }
        i = i + 1;
    }
    assert(ids@.take(i as int) =~= ids@);
    assert(ids@.skip(i as int) =~= Seq::<u32>::empty());
    Ok((to_remove, to_create))
}

proof fn lemma_added_prefix(ids: Seq<u32>, plans: Map<u32, UnitChange>, n: int)
    requires
        0 <= n <= ids.len(),
    ensures
        added_count(ids.take(n), plans) <= added_count(ids, plans),
    decreases ids.len(),
{
    if n == ids.len() {
        assert(ids.take(n) =~= ids);
    } else {
        lemma_added_prefix(ids.drop_last(), plans, n);
        assert(ids.drop_last().take(n) =~= ids.take(n));
    }
}

/// The number of actors that a reschedule creates; `None` where it cannot be counted.
pub fn new_actor_count(reschedule: &BTreeMap<u32, ParallelUnitReschedule>) -> (res: Option<usize>)
    ensures
        res == ({
            let n = added_count(ascending_of(reschedule@.dom()), plans_of(reschedule@));
            if n <= usize::MAX {
                Some(n as usize)
            } else {
                None
            }
        }),
{
    let ids = map_keys(reschedule);
    let ghost plans = plans_of(reschedule@);
    let mut count: usize = 0;
    let mut i: usize = 0;
    assert(ids@.take(0) =~= Seq::<u32>::empty());
    while i < ids.len()
        invariant
            i <= ids.len(),
            ids@.to_set() == reschedule@.dom(),
            ids@ == ascending_of(reschedule@.dom()),
            plans == plans_of(reschedule@),
            count == added_count(ids@.take(i as int), plans),
        decreases ids.len() - i,
    {
        let f: u32 = ids[i];
        assert(ids@.to_set().contains(ids@[i as int]));
        assert(ids@.take(i + 1).drop_last() =~= ids@.take(i as int));
        assert(ids@.take(i + 1).last() == f);
        let plan = reschedule.get(&f).unwrap();
        proof {
            lemma_added_prefix(ids@, plans, i + 1);
        }
        count = match count.checked_add(plan.added_parallel_units.len()) {
            Some(n) => n,
            None => {
                return None;
            },
        };
        i = i + 1;
    }
    assert(ids@.take(i as int) =~= ids@);
    Some(count)
}

/// The actors of a fragment that stay, with their parallel units.
pub open spec fn kept(
    actors: Seq<CustomActorInfo>,
    removed: Map<u32, u32>,
    statuses: Map<u32, ActorStatus>,
) -> Map<u32, u32>
    decreases actors.len(),
{
    if actors.len() == 0 {
        Map::empty()
    } else {
        let m = kept(actors.drop_last(), removed, statuses);
        let a = actors.last().actor_id;
        if removed.contains_key(a) {
            m
        } else {
            m.insert(a, unit_of_actor(statuses, a)->Some_0)
        }
    }
}

/// The actors of a fragment after the reschedule, with their parallel units.
pub open spec fn actors_after(
    fragment: &CustomFragmentInfo,
    removed: Map<u32, u32>,
    created: Map<u32, u32>,
    statuses: Map<u32, ActorStatus>,
) -> Map<u32, u32> {
    kept(fragment.actors@, removed, statuses).union_prefer_right(created)
}

/// The actors of each rescheduled fragment after the reschedule.
pub open spec fn all_actors_after(
    reschedule: Set<u32>,
    fragments: Map<u32, &CustomFragmentInfo>,
    to_remove: Map<u32, Map<u32, u32>>,
    to_create: Map<u32, Map<u32, u32>>,
    statuses: Map<u32, ActorStatus>,
) -> Map<u32, Map<u32, u32>> {
    Map::new(
        |f: u32| reschedule.contains(f),
        |f: u32| actors_after(fragments[f], inner(to_remove, f), inner(to_create, f), statuses),
    )
}

/// Every actor of the fragments is placed.
pub open spec fn all_placed(
    reschedule: Set<u32>,
    fragments: Map<u32, &CustomFragmentInfo>,
    statuses: Map<u32, ActorStatus>,
) -> bool {
    forall|f: u32| #[trigger]
        reschedule.contains(f) ==> fragments.contains_key(f) && first_unplaced(
            fragments[f].actors@,
            statuses,
        ) is None
}

/// The inner map under a key, if there is one.
pub fn contains_inner(m: &BTreeMap<u32, BTreeMap<u32, u32>>, k: u32, x: u32) -> (res: bool)
    ensures
        res == inner(nested(m@), k).contains_key(x),
{
    match m.get(&k) {
        Some(i) => i.contains_key(&x),
        None => false,
    }
}

proof fn lemma_all_placed(actors: Seq<CustomActorInfo>, statuses: Map<u32, ActorStatus>)
    ensures
        first_unplaced(actors, statuses) is None ==> forall|i: int|
            0 <= i < actors.len() ==> unit_of_actor(
                statuses,
                (#[trigger] actors[i]).actor_id,
            ) is Some,
    decreases actors.len(),
{
    if actors.len() > 0 {
        lemma_all_placed(actors.skip(1), statuses);
        if first_unplaced(actors, statuses) is None {
            assert forall|i: int| 0 <= i < actors.len() implies unit_of_actor(
                statuses,
                (#[trigger] actors[i]).actor_id,
            ) is Some by {
                if i > 0 {
                    assert(actors.skip(1)[i - 1] == actors[i]);
                }
            }
        }
    }
}

/// Where the actors of each rescheduled fragment are after the reschedule.
pub fn collect_actors_after(
    reschedule: &BTreeMap<u32, ParallelUnitReschedule>,
    ctx: &RescheduleContext,
    to_remove: &BTreeMap<u32, BTreeMap<u32, u32>>,
    to_create: &BTreeMap<u32, BTreeMap<u32, u32>>,
) -> (res: BTreeMap<u32, BTreeMap<u32, u32>>)
    requires
        all_placed(reschedule@.dom(), ctx.fragment_map@, ctx.actor_status@),
    ensures
        nested(res@) == all_actors_after(
            reschedule@.dom(),
            ctx.fragment_map@,
            nested(to_remove@),
            nested(to_create@),
            ctx.actor_status@,
        ),
{
    let ids = map_keys(reschedule);
    let ghost frags = ctx.fragment_map@;
    let ghost statuses = ctx.actor_status@;
    let ghost all = all_actors_after(
        reschedule@.dom(),
        frags,
        nested(to_remove@),
        nested(to_create@),
        statuses,
    );
    let mut res: BTreeMap<u32, BTreeMap<u32, u32>> = BTreeMap::new();
    let mut i: usize = 0;
    assert(nested(res@) =~= all.restrict(ids@.take(0).to_set()));
    while i < ids.len()
        invariant
            i <= ids.len(),
            ids@.to_set() == reschedule@.dom(),
            frags == ctx.fragment_map@,
            statuses == ctx.actor_status@,
            all_placed(reschedule@.dom(), frags, statuses),
            all == all_actors_after(
                reschedule@.dom(),
                frags,
                nested(to_remove@),
                nested(to_create@),
                statuses,
            ),
            nested(res@) == all.restrict(ids@.take(i as int).to_set()),
        decreases ids.len() - i,
    {
        let f: u32 = ids[i];
        assert(ids@.to_set().contains(ids@[i as int]));
        assert(reschedule@.dom().contains(f));
        let fragment: &CustomFragmentInfo = *ctx.fragment_map.get(&f).unwrap();
        let ghost removed = inner(nested(to_remove@), f);
        let mut m: BTreeMap<u32, u32> = BTreeMap::new();
        let mut j: usize = 0;
        proof {
            lemma_all_placed(fragment.actors@, statuses);
        }
        assert(fragment.actors@.take(0) =~= Seq::<CustomActorInfo>::empty());
        while j < fragment.actors.len()
            invariant
                j <= fragment.actors.len(),
                statuses == ctx.actor_status@,
                removed == inner(nested(to_remove@), f),
                forall|i: int|
                    0 <= i < fragment.actors@.len() ==> unit_of_actor(
                        statuses,
                        (#[trigger] fragment.actors@[i]).actor_id,
                    ) is Some,
                m@ == kept(fragment.actors@.take(j as int), removed, statuses),
            decreases fragment.actors.len() - j,
        {
            let actor_id: u32 = fragment.actors[j].actor_id;
            assert(fragment.actors@.take(j + 1).drop_last() =~= fragment.actors@.take(j as int));
            assert(unit_of_actor(statuses, fragment.actors@[j as int].actor_id) is Some);
            if !contains_inner(to_remove, f, actor_id) {
                if let Ok(unit) = ctx.actor_id_to_parallel_unit(actor_id) {
                    m.insert(actor_id, unit);
                }
            }
            j = j + 1;
        }
        assert(fragment.actors@.take(j as int) =~= fragment.actors@);
        if let Some(created) = to_create.get(&f) {
            crate::common::collections::merge_copy(&mut m, created);
        } else {
            assert(m@ =~= m@.union_prefer_right(Map::<u32, u32>::empty()));
        }
        assert(m@ =~= all[f]);
        let ghost res0 = res@;
        let ghost mv = m@;
        res.insert(f, m);
        proof {
            assert(nested(res@) =~= nested(res0).insert(f, mv));
            assert(ids@.take(i + 1) =~= ids@.take(i as int).push(f));
            crate::common::collections::lemma_to_set_push(ids@.take(i as int), f);
            assert(nested(res@) =~= all.restrict(ids@.take(i + 1).to_set()));
        }
        i = i + 1;
    }
    assert(ids@.take(i as int) =~= ids@);
    assert(nested(res@) =~= all);
    res
}

} // verus!
