//! Which parallel units there are, and whether a reschedule of one fragment may go ahead.
use crate::common::collections::{ascending_of, first_in, lemma_first_from, map_keys, set_to_vec};
use crate::common::worker::{is_unschedulable, ParallelUnit, WorkerNode};
use crate::scale::model::{ActorStatus, CustomFragmentInfo, FragmentDistributionType};
use crate::scale::model::{ParallelUnitReschedule, ScaleError, TableState, UnitChange};
use crate::scale::no_shuffle::plans_of;
use std::collections::BTreeMap;
use std::collections::BTreeSet;
use vstd::prelude::*;

verus! {

broadcast use {
    vstd::std_specs::btree::group_btree_axioms,
    vstd::laws_cmp::group_laws_cmp,
};

/// The workers by id.
pub open spec fn worker_map<'a>(workers: Seq<WorkerNode>) -> Map<u32, &'a WorkerNode>
    decreases workers.len(),
{
    if workers.len() == 0 {
        Map::empty()
    } else {
        worker_map(workers.drop_last()).insert(workers.last().id, &workers.last())
    }
}

/// The map with the given parallel units entered as those of a worker.
pub open spec fn add_units(m: Map<u32, u32>, units: Seq<ParallelUnit>, worker_id: u32) -> Map<
    u32,
    u32,
>
    decreases units.len(),
{
    if units.len() == 0 {
        m
    } else {
        add_units(m, units.drop_last(), worker_id).insert(units.last().id, worker_id)
    }
}

/// The worker of each parallel unit, of all workers or of the unschedulable ones only.
pub open spec fn units_from(
    ids: Seq<u32>,
    workers: Map<u32, &WorkerNode>,
    only_unschedulable: bool,
) -> Map<u32, u32>
    decreases ids.len(),
{
    if ids.len() == 0 {
        Map::empty()
    } else {
        let m = units_from(ids.drop_last(), workers, only_unschedulable);
        let worker = workers[ids.last()];
        if only_unschedulable && !is_unschedulable(worker.property) {
            m
        } else {
            add_units(m, worker.parallel_units@, ids.last())
        }
    }
}

/// The worker of each parallel unit.
pub open spec fn unit_owners(
    workers: Map<u32, &WorkerNode>,
    only_unschedulable: bool,
) -> Map<u32, u32> {
    units_from(ascending_of(workers.dom()), workers, only_unschedulable)
}

/// The workers by id.
pub fn collect_workers<'a>(workers: &'a Vec<WorkerNode>) -> (res: BTreeMap<u32, &'a WorkerNode>)
    ensures
        res@ == worker_map(workers@),
{
    let mut res: BTreeMap<u32, &'a WorkerNode> = BTreeMap::new();
    let mut i: usize = 0;
    assert(workers@.take(0) =~= Seq::<WorkerNode>::empty());
    while i < workers.len()
        invariant
            i <= workers.len(),
            res@ == worker_map(workers@.take(i as int)),
        decreases workers.len() - i,
    {
        let worker: &'a WorkerNode = &workers[i];
        res.insert(worker.id, worker);
        assert(workers@.take(i + 1).drop_last() =~= workers@.take(i as int));
        i = i + 1;
    }
    assert(workers@.take(i as int) =~= workers@);
    res
}

fn push_units(m: &mut BTreeMap<u32, u32>, units: &Vec<ParallelUnit>, worker_id: u32)
    ensures
        final(m)@ == add_units(old(m)@, units@, worker_id),
{
    let ghost m0 = m@;
    let mut i: usize = 0;
    assert(units@.take(0) =~= Seq::<ParallelUnit>::empty());
    while i < units.len()
        invariant
            i <= units.len(),
            m@ == add_units(m0, units@.take(i as int), worker_id),
        decreases units.len() - i,
    {
        m.insert(units[i].id, worker_id);
        assert(units@.take(i + 1).drop_last() =~= units@.take(i as int));
        i = i + 1;
    }
    assert(units@.take(i as int) =~= units@);
}

/// The worker of each parallel unit, of all workers or of the unschedulable ones only.
pub fn collect_units(workers: &BTreeMap<u32, &WorkerNode>, only_unschedulable: bool) -> (res:
    BTreeMap<u32, u32>)
    ensures
        res@ == unit_owners(workers@, only_unschedulable),
{
    let ids = map_keys(workers);
    let mut res: BTreeMap<u32, u32> = BTreeMap::new();
    let mut i: usize = 0;
    assert(ids@.take(0) =~= Seq::<u32>::empty());
    while i < ids.len()
        invariant
            i <= ids.len(),
            ids@.to_set() == workers@.dom(),
            res@ == units_from(ids@.take(i as int), workers@, only_unschedulable),
        decreases ids.len() - i,
    {
        assert(ids@.to_set().contains(ids@[i as int]));
        let worker: &WorkerNode = *workers.get(&ids[i]).unwrap();
        if !only_unschedulable || worker.unschedulable() {
            push_units(&mut res, &worker.parallel_units, ids[i]);
        }
        assert(ids@.take(i + 1).drop_last() =~= ids@.take(i as int));
        i = i + 1;
    }
    assert(ids@.take(i as int) =~= ids@);
    res
}

/// The first of the given fragments that is to move to an unschedulable parallel unit, with the
/// unit and its worker.
pub open spec fn first_unschedulable(
    ids: Seq<u32>,
    plans: Map<u32, UnitChange>,
    unschedulable: Map<u32, u32>,
) -> Option<(u32, u32, u32)>
    decreases ids.len(),
{
    if ids.len() == 0 {
        None
    } else {
        match first_in(ascending_of(plans[ids[0]].added), unschedulable.dom()) {
            Some(u) => Some((ids[0], u, unschedulable[u])),
            None => first_unschedulable(ids.skip(1), plans, unschedulable),
        }
    }
}

/// The first element of the set, in ascending order, that is a key of the map.
fn first_key_in(set: &BTreeSet<u32>, m: &BTreeMap<u32, u32>) -> (res: Option<u32>)
    ensures
        res == first_in(ascending_of(set@), m@.dom()),
        res matches Some(u) ==> m@.contains_key(u),
{
    let v = set_to_vec(set);
    let mut i: usize = 0;
    while i < v.len()
        invariant
            i <= v.len(),
            v@ == ascending_of(set@),
            forall|j: int| 0 <= j < i ==> !m@.dom().contains(#[trigger] v@[j]),
        decreases v.len() - i,
    {
        if m.contains_key(&v[i]) {
            proof {
                lemma_first_from(v@, m@.dom(), i as int);
                assert(v@.skip(i as int)[0] == v@[i as int]);
            }
            return Some(v[i]);
        }
        i = i + 1;
    }
    proof {
        lemma_first_from(v@, m@.dom(), i as int);
        assert(v@.skip(i as int) =~= Seq::<u32>::empty());
    }
    None
}

/// Finds a fragment that is to move to an unschedulable parallel unit.
pub fn find_unschedulable(
    reschedule: &BTreeMap<u32, ParallelUnitReschedule>,
    unschedulable: &BTreeMap<u32, u32>,
) -> (res: Option<(u32, u32, u32)>)
    ensures
        res == first_unschedulable(
            ascending_of(reschedule@.dom()),
            plans_of(reschedule@),
            unschedulable@,
        ),
{
    let ids = map_keys(reschedule);
    let ghost plans = plans_of(reschedule@);
    let mut i: usize = 0;
    assert(ids@.skip(0) =~= ids@);
    while i < ids.len()
        invariant
            i <= ids.len(),
            ids@.to_set() == reschedule@.dom(),
            ids@ == ascending_of(reschedule@.dom()),
            plans == plans_of(reschedule@),
            first_unschedulable(ids@, plans, unschedulable@) == first_unschedulable(
                ids@.skip(i as int),
                plans,
                unschedulable@,
            ),
        decreases ids.len() - i,
    {
        assert(ids@.to_set().contains(ids@[i as int]));
        let plan = reschedule.get(&ids[i]).unwrap();
        assert(ids@.skip(i as int)[0] == ids@[i as int]);
        assert(ids@.skip(i as int).skip(1) =~= ids@.skip(i + 1));
        if let Some(u) = first_key_in(&plan.added_parallel_units, unschedulable) {
            let worker_id: u32 = *unschedulable.get(&u).unwrap();
            return Some((ids[i], u, worker_id));
        }
        i = i + 1;
    }
    assert(ids@.skip(i as int) =~= Seq::<u32>::empty());
    None
}

/// The parallel units that the actors of a fragment run on.
pub open spec fn current_units(
    fragment: &CustomFragmentInfo,
    statuses: Map<u32, ActorStatus>,
) -> Set<u32> {
    Set::new(
        |u: u32|
            exists|j: int|
                0 <= j < fragment.actors@.len()
                    && statuses[(#[trigger] fragment.actors@[j]).actor_id].parallel_unit->Some_0.id
                    == u,
    )
}

/// Every actor of the fragment is placed.
pub open spec fn placed(fragment: &CustomFragmentInfo, statuses: Map<u32, ActorStatus>) -> bool {
    forall|j: int|
        0 <= j < fragment.actors@.len() ==> statuses.contains_key(
            (#[trigger] fragment.actors@[j]).actor_id,
        ) && statuses[fragment.actors@[j].actor_id].parallel_unit is Some
}

/// The parallel units that the actors of a fragment run on.
pub fn collect_current_units(
    fragment: &CustomFragmentInfo,
    statuses: &BTreeMap<u32, ActorStatus>,
) -> (res: BTreeSet<u32>)
    requires
        placed(fragment, statuses@),
    ensures
        res@ == current_units(fragment, statuses@),
{
    let mut res: BTreeSet<u32> = BTreeSet::new();
    let mut i: usize = 0;
    while i < fragment.actors.len()
        invariant
            i <= fragment.actors.len(),
            placed(fragment, statuses@),
            forall|u: u32| #[trigger]
                res@.contains(u) <==> exists|j: int|
                    0 <= j < i
                        && statuses@[(#[trigger] fragment.actors@[j]).actor_id].parallel_unit->Some_0.id
                        == u,
        decreases fragment.actors.len() - i,
    {
        let ghost res0 = res@;
        let actor_id: u32 = fragment.actors[i].actor_id;
        assert(statuses@.contains_key(fragment.actors@[i as int].actor_id));
        let status = *statuses.get(&actor_id).unwrap();
        let unit: u32 = status.parallel_unit.unwrap().id;
        res.insert(unit);
        proof {
            assert forall|u: u32| #[trigger] res@.contains(u) <==> exists|j: int|
                0 <= j < i + 1
                    && statuses@[(#[trigger] fragment.actors@[j]).actor_id].parallel_unit->Some_0.id
                    == u by {
                if res0.contains(u) {
                    let j = choose|j: int|
                        0 <= j < i
                            && statuses@[(#[trigger] fragment.actors@[j]).actor_id].parallel_unit->Some_0.id
                            == u;
                    assert(0 <= j < i + 1
                        && statuses@[fragment.actors@[j].actor_id].parallel_unit->Some_0.id == u);
                }
                if u == unit {
                    assert(statuses@[fragment.actors@[i as int].actor_id].parallel_unit->Some_0.id
                        == u);
                }
            }
        }
        i = i + 1;
    }
    assert(res@ =~= current_units(fragment, statuses@));
    res
}

/// The parallel units among those that a plan adds to a fragment that it cannot have: they are
/// not available, or an actor of the fragment is on them and stays there.
pub open spec fn bad_additions(
    plan: UnitChange,
    current: Set<u32>,
    owners: Map<u32, u32>,
) -> Set<u32> {
    Set::new(
        |u: u32| !owners.contains_key(u) || (current.contains(u) && !plan.removed.contains(u)),
    )
}

/// Whether the plan of one fragment may go ahead, and if not, why.
pub open spec fn verdict(
    fragment_id: u32,
    plan: UnitChange,
    fragments: Map<u32, &CustomFragmentInfo>,
    states: Map<u32, TableState>,
    statuses: Map<u32, ActorStatus>,
    targets: Set<u32>,
    owners: Map<u32, u32>,
) -> Result<(), ScaleError> {
    if !fragments.contains_key(fragment_id) {
        Err(ScaleError::FragmentNotFound { fragment_id })
    } else if states[fragment_id] != TableState::Created {
        Err(ScaleError::TableNotCreated { fragment_id, state: states[fragment_id] })
    } else if targets.contains(fragment_id) {
        Err(ScaleError::NoShuffleDownstream { fragment_id })
    } else {
        let current = current_units(fragments[fragment_id], statuses);
        match first_in(ascending_of(plan.removed), current.complement()) {
            Some(parallel_unit_id) => Err(
                ScaleError::NoActorOnParallelUnit { fragment_id, parallel_unit_id },
            ),
            None => match first_in(
                ascending_of(plan.added),
                bad_additions(plan, current, owners),
            ) {
                Some(parallel_unit_id) => if !owners.contains_key(parallel_unit_id) {
                    Err(ScaleError::ParallelUnitNotAvailable { parallel_unit_id })
                } else {
                    Err(ScaleError::ParallelUnitInUse { fragment_id, parallel_unit_id })
                },
                None => if fragments[fragment_id].distribution_type
                    == FragmentDistributionType::Hash {
                    if current.len() + plan.added.len() <= plan.removed.len() {
                        Err(ScaleError::RemovesAllParallelUnits { fragment_id })
                    } else {
                        Ok(())
                    }
                } else if plan.added.len() != plan.removed.len() {
                    Err(ScaleError::SingleOnlyMigrates { fragment_id })
                } else {
                    Ok(())
                },
            },
        }
    }
}

/// Judges the plan of one fragment.
pub fn judge(
    fragment_id: u32,
    plan: &ParallelUnitReschedule,
    fragments: &BTreeMap<u32, &CustomFragmentInfo>,
    states: &BTreeMap<u32, TableState>,
    statuses: &BTreeMap<u32, ActorStatus>,
    targets: &BTreeSet<u32>,
    owners: &BTreeMap<u32, u32>,
) -> (res: Result<(), ScaleError>)
    requires
        fragments@.contains_key(fragment_id) ==> states@.contains_key(fragment_id)
            && states@[fragment_id] != TableState::Unspecified
            && fragments@[fragment_id].distribution_type != FragmentDistributionType::Unspecified
            && placed(fragments@[fragment_id], statuses@),
    ensures
        res == verdict(
            fragment_id,
            plan@,
            fragments@,
            states@,
            statuses@,
            targets@,
            owners@,
        ),
{
    let fragment: &CustomFragmentInfo = match fragments.get(&fragment_id) {
        Some(fragment) => *fragment,
        None => {
            return Err(ScaleError::FragmentNotFound { fragment_id });
        },
    };
    let state: TableState = *states.get(&fragment_id).unwrap();
    if state != TableState::Created {
        return Err(ScaleError::TableNotCreated { fragment_id, state });
    }
    if targets.contains(&fragment_id) {
        return Err(ScaleError::NoShuffleDownstream { fragment_id });
    }
    let current = collect_current_units(fragment, statuses);
    let removed = set_to_vec(&plan.removed_parallel_units);
    let ghost missing = current@.complement();
    let mut i: usize = 0;
    while i < removed.len()
        invariant
            i <= removed.len(),
            missing == current@.complement(),
            fragments@.contains_key(fragment_id),
            states@[fragment_id] == TableState::Created,
            !targets@.contains(fragment_id),
            current@ == current_units(fragments@[fragment_id], statuses@),
            removed@ == ascending_of(plan@.removed),
            forall|j: int| 0 <= j < i ==> !missing.contains(#[trigger] removed@[j]),
        decreases removed.len() - i,
    {
        let parallel_unit_id: u32 = removed[i];
        if !current.contains(&parallel_unit_id) {
            proof {
                lemma_first_from(removed@, missing, i as int);
                assert(removed@.skip(i as int)[0] == parallel_unit_id);
            }
            return Err(ScaleError::NoActorOnParallelUnit { fragment_id, parallel_unit_id });
        }
        i = i + 1;
    }
    proof {
        lemma_first_from(removed@, missing, i as int);
        assert(removed@.skip(i as int) =~= Seq::<u32>::empty());
    }
    let added = set_to_vec(&plan.added_parallel_units);
    let ghost bad = bad_additions(plan@, current@, owners@);
    let mut i: usize = 0;
    while i < added.len()
        invariant
            i <= added.len(),
            bad == bad_additions(plan@, current@, owners@),
            fragments@.contains_key(fragment_id),
            states@[fragment_id] == TableState::Created,
            !targets@.contains(fragment_id),
            current@ == current_units(fragments@[fragment_id], statuses@),
            first_in(ascending_of(plan@.removed), current@.complement()) is None,
            added@ == ascending_of(plan@.added),
            forall|j: int| 0 <= j < i ==> !bad.contains(#[trigger] added@[j]),
        decreases added.len() - i,
    {
        let parallel_unit_id: u32 = added[i];
        proof {
            lemma_first_from(added@, bad, i as int);
            assert(added@.skip(i as int)[0] == parallel_unit_id);
        }
        if !owners.contains_key(&parallel_unit_id) {
            return Err(ScaleError::ParallelUnitNotAvailable { parallel_unit_id });
        }
        if current.contains(&parallel_unit_id) && !plan.removed_parallel_units.contains(
            &parallel_unit_id,
        ) {
            return Err(ScaleError::ParallelUnitInUse { fragment_id, parallel_unit_id });
        }
        i = i + 1;
    }
    proof {
        lemma_first_from(added@, bad, i as int);
        assert(added@.skip(i as int) =~= Seq::<u32>::empty());
    }
    if fragment.distribution_type() == FragmentDistributionType::Hash {
        let total: u128 = current.len() as u128 + added.len() as u128;
        if total <= removed.len() as u128 {
            return Err(ScaleError::RemovesAllParallelUnits { fragment_id });
        }
    } else if added.len() != removed.len() {
        return Err(ScaleError::SingleOnlyMigrates { fragment_id });
    }
    Ok(())
}

/// Why the first of the given fragments whose plan is refused is refused.
pub open spec fn first_refused(
    ids: Seq<u32>,
    plans: Map<u32, UnitChange>,
    fragments: Map<u32, &CustomFragmentInfo>,
    states: Map<u32, TableState>,
    statuses: Map<u32, ActorStatus>,
    targets: Set<u32>,
    owners: Map<u32, u32>,
) -> Option<ScaleError>
    decreases ids.len(),
{
    if ids.len() == 0 {
        None
    } else {
        match verdict(ids[0], plans[ids[0]], fragments, states, statuses, targets, owners) {
            Err(e) => Some(e),
            Ok(_) => first_refused(
                ids.skip(1),
                plans,
                fragments,
                states,
                statuses,
                targets,
                owners,
            ),
        }
    }
}

/// Judges the plans of all fragments.
pub fn find_refused(
    reschedule: &BTreeMap<u32, ParallelUnitReschedule>,
    fragments: &BTreeMap<u32, &CustomFragmentInfo>,
    states: &BTreeMap<u32, TableState>,
    statuses: &BTreeMap<u32, ActorStatus>,
    targets: &BTreeSet<u32>,
    owners: &BTreeMap<u32, u32>,
) -> (res: Option<ScaleError>)
    requires
        forall|f: u32| #[trigger]
            fragments@.contains_key(f) ==> states@.contains_key(f) && states@[f]
                != TableState::Unspecified && fragments@[f].distribution_type
                != FragmentDistributionType::Unspecified && placed(fragments@[f], statuses@),
    ensures
        res == first_refused(
            ascending_of(reschedule@.dom()),
            plans_of(reschedule@),
            fragments@,
            states@,
            statuses@,
            targets@,
            owners@,
        ),
        res is None ==> forall|f: u32| #[trigger]
            reschedule@.contains_key(f) ==> verdict(
                f,
                reschedule@[f]@,
                fragments@,
                states@,
                statuses@,
                targets@,
                owners@,
            ) is Ok,
{
    let ids = map_keys(reschedule);
    let ghost plans = plans_of(reschedule@);
    let mut i: usize = 0;
    assert(ids@.skip(0) =~= ids@);
    while i < ids.len()
        invariant
            i <= ids.len(),
            ids@.to_set() == reschedule@.dom(),
            ids@ == ascending_of(reschedule@.dom()),
            plans == plans_of(reschedule@),
            forall|f: u32| #[trigger]
                fragments@.contains_key(f) ==> states@.contains_key(f) && states@[f]
                    != TableState::Unspecified && fragments@[f].distribution_type
                    != FragmentDistributionType::Unspecified && placed(fragments@[f], statuses@),
            first_refused(ids@, plans, fragments@, states@, statuses@, targets@, owners@)
                == first_refused(
                ids@.skip(i as int),
                plans,
                fragments@,
                states@,
                statuses@,
                targets@,
                owners@,
            ),
            forall|j: int|
                0 <= j < i ==> verdict(
                    #[trigger] ids@[j],
                    plans[ids@[j]],
                    fragments@,
                    states@,
                    statuses@,
                    targets@,
                    owners@,
                ) is Ok,
        decreases ids.len() - i,
    {
        assert(ids@.to_set().contains(ids@[i as int]));
        let plan = reschedule.get(&ids[i]).unwrap();
        assert(ids@.skip(i as int)[0] == ids@[i as int]);
        assert(ids@.skip(i as int).skip(1) =~= ids@.skip(i + 1));
        if let Err(e) = judge(ids[i], plan, fragments, states, statuses, targets, owners) {
            return Some(e);
        }
        i = i + 1;
    }
    assert(ids@.skip(i as int) =~= Seq::<u32>::empty());
    proof {
        assert forall|f: u32| #[trigger] reschedule@.contains_key(f) implies verdict(
            f,
            reschedule@[f]@,
            fragments@,
            states@,
            statuses@,
            targets@,
            owners@,
        ) is Ok by {
            assert(ids@.to_set().contains(f));
            let j = ids@.index_of(f);
            assert(ids@[j] == f);
        }
    }
    None
}

} // verus!
