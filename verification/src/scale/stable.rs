//! Stable resizing: fragments gain and lose workers one by one.
use crate::common::collections::{ascending_of, first_in, lemma_first_from, map_keys, same_set};
use crate::common::collections::set_to_vec;
use crate::common::worker::WorkerNode;
use crate::scale::checks::{collect_current_units, current_units, placed};
use crate::scale::context::{lemma_ends_known, sources_of, targets_of};
use crate::scale::links::build_no_shuffle_relation_index;
use crate::scale::model::{ActorStatus, CustomFragmentInfo, FragmentDistributionType};
use crate::scale::model::{ParallelUnitReschedule, PlanOps, ScaleError, TableFragments, UnitChange};
use crate::scale::no_shuffle::{conflicting, consistent, plans_of, reaches, resolved};
use crate::scale::no_shuffle::resolve_no_shuffle_upstream_fragments;
use crate::scale::resize::{drop_unchanged, first_common, retain_changed};
use crate::scale::tables::{collect_actors, collect_fragments, collect_statuses, fragments_of};
use crate::scale::tables::{lemma_fragments_of, statuses_of, tables_valid};
use crate::scale::units::{add_all, collect_units_of_workers, diff_parallel_unit_change, first_n};
use crate::scale::units::{filter_unschedulable_workers, remove_all, sets_of, take_first};
use crate::scale::units::{unit_diff, units_of_workers, unschedulable_workers};
use std::collections::BTreeMap;
use std::collections::BTreeSet;
use vstd::prelude::*;

verus! {

broadcast use {
    vstd::std_specs::btree::group_btree_axioms,
    vstd::laws_cmp::group_laws_cmp,
};

/// The workers that a fragment gains and loses, and how parallel it is to be then.
#[derive(Debug)]
pub struct WorkerChanges {
    pub include_worker_ids: BTreeSet<u32>,
    pub exclude_worker_ids: BTreeSet<u32>,
    pub target_parallelism: Option<usize>,
    pub target_parallelism_per_worker: Option<usize>,
}

/// What worker changes say.
pub struct WorkerChange {
    pub gained: Set<u32>,
    pub lost: Set<u32>,
    pub target: Option<usize>,
    pub per_worker: Option<usize>,
}

impl View for WorkerChanges {
    type V = WorkerChange;

    open spec fn view(&self) -> WorkerChange {
        WorkerChange {
            gained: self.include_worker_ids@,
            lost: self.exclude_worker_ids@,
            target: self.target_parallelism,
            per_worker: self.target_parallelism_per_worker,
        }
    }
}

impl PlanOps for WorkerChanges {
    fn copy_plan(&self) -> (res: WorkerChanges) {
        WorkerChanges {
            include_worker_ids: self.include_worker_ids.clone(),
            exclude_worker_ids: self.exclude_worker_ids.clone(),
            target_parallelism: self.target_parallelism,
            target_parallelism_per_worker: self.target_parallelism_per_worker,
        }
    }

    fn same_plan(&self, other: &WorkerChanges) -> (res: bool) {
        same_set(&self.include_worker_ids, &other.include_worker_ids) && same_set(
            &self.exclude_worker_ids,
            &other.exclude_worker_ids,
        ) && same_option(self.target_parallelism, other.target_parallelism) && same_option(
            self.target_parallelism_per_worker,
            other.target_parallelism_per_worker,
        )
    }
}

fn same_option(a: Option<usize>, b: Option<usize>) -> (res: bool)
    ensures
        res == (a == b),
{
    match (a, b) {
        (Some(x), Some(y)) => x == y,
        (None, None) => true,
        _ => false,
    }
}

/// The first worker that one of the given fragments is to gain and that is unschedulable.
pub open spec fn first_bad_include(
    ids: Seq<u32>,
    changes: Map<u32, WorkerChange>,
    unschedulable: Set<u32>,
) -> Option<u32>
    decreases ids.len(),
{
    if ids.len() == 0 {
        None
    } else {
        match first_in(ascending_of(changes[ids[0]].gained), unschedulable) {
            Some(w) => Some(w),
            None => first_bad_include(ids.skip(1), changes, unschedulable),
        }
    }
}

/// The parallel units of a worker, as far as they are known.
pub open spec fn units_of(
    units: Map<u32, Set<u32>>,
    hints: Map<u32, Set<u32>>,
    w: u32,
) -> Set<u32> {
    if units.contains_key(w) {
        units[w]
    } else {
        hints[w]
    }
}

/// The parallel units of the given workers.
pub open spec fn units_of_all(
    units: Map<u32, Set<u32>>,
    hints: Map<u32, Set<u32>>,
    workers: Set<u32>,
) -> Set<u32> {
    Set::new(
        |u: u32| exists|w: u32| workers.contains(w) && #[trigger] units_of(units, hints, w).contains(u),
    )
}

/// The workers of which nothing is known.
pub open spec fn unknown_workers(units: Map<u32, Set<u32>>, hints: Map<u32, Set<u32>>) -> Set<u32> {
    Set::new(|w: u32| !units.contains_key(w) && !hints.contains_key(w))
}

/// The first `k` parallel units of each of the given workers.
pub open spec fn limited_units(units: Map<u32, Set<u32>>, workers: Set<u32>, k: int) -> Set<u32> {
    Set::new(
        |u: u32| exists|w: u32| workers.contains(w) && #[trigger] first_n(units[w], k).contains(u),
    )
}

/// The parallel units where each gained worker counts only with its first ones.
pub open spec fn refiltered(
    target: Set<u32>,
    units: Map<u32, Set<u32>>,
    gained: Set<u32>,
    include_units: Set<u32>,
    k: int,
) -> Set<u32> {
    target.difference(include_units).union(limited_units(units, gained, k))
}

/// The parallel units of the workers that a fragment with one actor may be on.
pub open spec fn single_targets(
    units: Map<u32, Set<u32>>,
    unschedulable: Set<u32>,
    lost: Set<u32>,
) -> Set<u32> {
    Set::new(
        |u: u32|
            exists|w: u32|
                units.contains_key(w) && !unschedulable.contains(w) && !lost.contains(w)
                    && #[trigger] units[w].contains(u),
    )
}

/// What a fragment gains and loses by a worker change.
pub open spec fn stable_change(
    fragment_id: u32,
    change: WorkerChange,
    fragments: Map<u32, &CustomFragmentInfo>,
    statuses: Map<u32, ActorStatus>,
    units: Map<u32, Set<u32>>,
    hints: Map<u32, Set<u32>>,
    unschedulable: Set<u32>,
) -> Result<Option<UnitChange>, ScaleError> {
    if !fragments.contains_key(fragment_id) {
        Err(ScaleError::FragmentNotFound { fragment_id })
    } else {
        let unknown = unknown_workers(units, hints);
        match first_in(ascending_of(change.gained), change.lost) {
            Some(worker_id) => Err(ScaleError::WorkerInBothLists { worker_id }),
            None => match first_in(
                ascending_of(change.gained) + ascending_of(change.lost),
                unknown,
            ) {
                Some(worker_id) => Err(ScaleError::WorkerNotFound { worker_id }),
                None => {
                    let fragment = fragments[fragment_id];
                    let current = current_units(fragment, statuses);
                    if fragment.distribution_type == FragmentDistributionType::Single {
                        stable_single(fragment_id, change, current, units, hints, unschedulable)
                    } else {
                        stable_hash(fragment_id, change, current, units, hints)
                    }
                },
            },
        }
    }
}

/// What a fragment with one actor gains and loses: it moves only if it may not stay.
pub open spec fn stable_single(
    fragment_id: u32,
    change: WorkerChange,
    current: Set<u32>,
    units: Map<u32, Set<u32>>,
    hints: Map<u32, Set<u32>>,
    unschedulable: Set<u32>,
) -> Result<Option<UnitChange>, ScaleError> {
    let allowed = single_targets(units, unschedulable, change.lost);
    let target = match change.per_worker {
        Some(k) => refiltered(
            allowed,
            units,
            change.gained,
            units_of_all(units, hints, change.gained),
            k as int,
        ),
        None => allowed,
    };
    if target.is_empty() {
        Err(ScaleError::NoSchedulableParallelUnit { fragment_id })
    } else if current.subset_of(target) {
        Ok(None)
    } else {
        let chosen = ascending_of(target)[fragment_id as int % target.len() as int];
        Ok(Some(UnitChange { added: Set::empty().insert(chosen), removed: current }))
    }
}

/// What a hash-distributed fragment gains and loses.
pub open spec fn stable_hash(
    fragment_id: u32,
    change: WorkerChange,
    current: Set<u32>,
    units: Map<u32, Set<u32>>,
    hints: Map<u32, Set<u32>>,
) -> Result<Option<UnitChange>, ScaleError> {
    let include_units = units_of_all(units, hints, change.gained);
    let target = current.union(include_units).difference(
        units_of_all(units, hints, change.lost),
    );
    if target.is_empty() {
        Err(ScaleError::NoSchedulableParallelUnit { fragment_id })
    } else {
        match (change.target, change.per_worker) {
            (Some(_), Some(_)) => Err(ScaleError::BothTargetParallelisms { fragment_id }),
            (Some(n), None) => if target.len() < n {
                Err(
                    ScaleError::TargetParallelismTooLarge {
                        fragment_id,
                        target: n,
                        available: target.len() as usize,
                    },
                )
            } else {
                Ok(Some(unit_diff(current, first_n(target, n as int))))
            },
            (None, Some(k)) => Ok(
                Some(
                    unit_diff(
                        current,
                        refiltered(target, units, change.gained, include_units, k as int),
                    ),
                ),
            ),
            (None, None) => Ok(Some(unit_diff(current, target))),
        }
    }
}

/// The plan with the given fragments changed.
pub open spec fn stable_plan(
    ids: Seq<u32>,
    changes: Map<u32, WorkerChange>,
    fragments: Map<u32, &CustomFragmentInfo>,
    statuses: Map<u32, ActorStatus>,
    units: Map<u32, Set<u32>>,
    hints: Map<u32, Set<u32>>,
    unschedulable: Set<u32>,
    plan: Map<u32, UnitChange>,
) -> Result<Map<u32, UnitChange>, ScaleError>
    decreases ids.len(),
{
    if ids.len() == 0 {
        Ok(plan)
    } else {
        match stable_change(
            ids[0],
            changes[ids[0]],
            fragments,
            statuses,
            units,
            hints,
            unschedulable,
        ) {
            Err(e) => Err(e),
            Ok(None) => stable_plan(
                ids.skip(1),
                changes,
                fragments,
                statuses,
                units,
                hints,
                unschedulable,
                plan,
            ),
            Ok(Some(change)) => stable_plan(
                ids.skip(1),
                changes,
                fragments,
                statuses,
                units,
                hints,
                unschedulable,
                plan.insert(ids[0], change),
            ),
        }
    }
}

/// What is known of the parallel units of a worker.
fn known_units<'a>(
    units: &'a BTreeMap<u32, BTreeSet<u32>>,
    hints: &'a BTreeMap<u32, BTreeSet<u32>>,
    w: u32,
) -> (res: Option<&'a BTreeSet<u32>>)
    ensures
        match res {
            Some(set) => !unknown_workers(sets_of(units@), sets_of(hints@)).contains(w) && set@
                == units_of(sets_of(units@), sets_of(hints@), w),
            None => unknown_workers(sets_of(units@), sets_of(hints@)).contains(w),
        },
{
    match units.get(&w) {
        Some(set) => Some(set),
        None => hints.get(&w),
    }
}

/// The first of the given workers of which nothing is known.
fn find_unknown(
    workers: &Vec<u32>,
    units: &BTreeMap<u32, BTreeSet<u32>>,
    hints: &BTreeMap<u32, BTreeSet<u32>>,
) -> (res: Option<u32>)
    ensures
        res == first_in(workers@, unknown_workers(sets_of(units@), sets_of(hints@))),
        res is None ==> forall|i: int|
            0 <= i < workers@.len() ==> !unknown_workers(
                sets_of(units@),
                sets_of(hints@),
            ).contains(#[trigger] workers@[i]),
{
    let ghost unknown = unknown_workers(sets_of(units@), sets_of(hints@));
    let mut i: usize = 0;
    while i < workers.len()
        invariant
            i <= workers.len(),
            unknown == unknown_workers(sets_of(units@), sets_of(hints@)),
            forall|j: int| 0 <= j < i ==> !unknown.contains(#[trigger] workers@[j]),
        decreases workers.len() - i,
    {
        if known_units(units, hints, workers[i]).is_none() {
            proof {
                lemma_first_from(workers@, unknown, i as int);
                assert(workers@.skip(i as int)[0] == workers@[i as int]);
            }
            return Some(workers[i]);
        }
        i = i + 1;
    }
    proof {
        lemma_first_from(workers@, unknown, i as int);
        assert(workers@.skip(i as int) =~= Seq::<u32>::empty());
    }
    None
}

/// The parallel units of the given workers.
fn collect_units_of_all(
    workers: &Vec<u32>,
    units: &BTreeMap<u32, BTreeSet<u32>>,
    hints: &BTreeMap<u32, BTreeSet<u32>>,
) -> (res: BTreeSet<u32>)
    requires
        forall|i: int|
            0 <= i < workers@.len() ==> !unknown_workers(
                sets_of(units@),
                sets_of(hints@),
            ).contains(#[trigger] workers@[i]),
    ensures
        res@ == units_of_all(sets_of(units@), sets_of(hints@), workers@.to_set()),
{
    let ghost us = sets_of(units@);
    let ghost hs = sets_of(hints@);
    let mut res: BTreeSet<u32> = BTreeSet::new();
    let mut i: usize = 0;
    while i < workers.len()
        invariant
            i <= workers.len(),
            us == sets_of(units@),
            hs == sets_of(hints@),
            forall|i: int|
                0 <= i < workers@.len() ==> !unknown_workers(us, hs).contains(
                    #[trigger] workers@[i],
                ),
            forall|u: u32| #[trigger]
                res@.contains(u) <==> exists|j: int|
                    0 <= j < i && units_of(us, hs, #[trigger] workers@[j]).contains(u),
        decreases workers.len() - i,
    {
        let ghost res0 = res@;
        assert(!unknown_workers(us, hs).contains(workers@[i as int]));
        if let Some(set) = known_units(units, hints, workers[i]) {
            add_all(&mut res, set);
            proof {
                assert forall|u: u32| #[trigger] res@.contains(u) <==> exists|j: int|
                    0 <= j < i + 1 && units_of(us, hs, #[trigger] workers@[j]).contains(u) by {
                    if res0.contains(u) {
                        let j = choose|j: int|
                            0 <= j < i && units_of(us, hs, #[trigger] workers@[j]).contains(u);
                        assert(0 <= j < i + 1 && units_of(us, hs, workers@[j]).contains(u));
                    }
                    if set@.contains(u) {
                        assert(units_of(us, hs, workers@[i as int]).contains(u));
                    }
                }
            }
        }
        i = i + 1;
    }
    proof {
        let all = units_of_all(us, hs, workers@.to_set());
        assert forall|u: u32| res@.contains(u) <==> all.contains(u) by {
            if res@.contains(u) {
                let j = choose|j: int|
                    0 <= j < i && units_of(us, hs, #[trigger] workers@[j]).contains(u);
                assert(workers@.to_set().contains(workers@[j]));
            }
            if all.contains(u) {
                let w = choose|w: u32|
                    workers@.to_set().contains(w) && #[trigger] units_of(us, hs, w).contains(u);
                let j = workers@.index_of(w);
                assert(workers@[j] == w);
            }
        }
        assert(res@ =~= all);
    }
    res
}

/// Lets each gained worker count only with its first parallel units.
fn refilter_parallel_unit_id_by_target_parallelism(
    worker_parallel_units: &BTreeMap<u32, BTreeSet<u32>>,
    include_worker_ids: &Vec<u32>,
    include_worker_parallel_unit_ids: &BTreeSet<u32>,
    target_parallel_unit_ids: &mut BTreeSet<u32>,
    target_parallelism_per_worker: usize,
)
    requires
        forall|i: int|
            0 <= i < include_worker_ids@.len() ==> worker_parallel_units@.contains_key(
                #[trigger] include_worker_ids@[i],
            ),
    ensures
        final(target_parallel_unit_ids)@ == refiltered(
            old(target_parallel_unit_ids)@,
            sets_of(worker_parallel_units@),
            include_worker_ids@.to_set(),
            include_worker_parallel_unit_ids@,
            target_parallelism_per_worker as int,
        ),
{
    let ghost us = sets_of(worker_parallel_units@);
    let ghost k = target_parallelism_per_worker as int;
    let mut limited: BTreeSet<u32> = BTreeSet::new();
    let mut i: usize = 0;
    while i < include_worker_ids.len()
        invariant
            i <= include_worker_ids.len(),
            us == sets_of(worker_parallel_units@),
            k == target_parallelism_per_worker as int,
            forall|i: int|
                0 <= i < include_worker_ids@.len() ==> worker_parallel_units@.contains_key(
                    #[trigger] include_worker_ids@[i],
                ),
            forall|u: u32| #[trigger]
                limited@.contains(u) <==> exists|j: int|
                    0 <= j < i && first_n(us[#[trigger] include_worker_ids@[j]], k).contains(u),
        decreases include_worker_ids.len() - i,
    {
        let ghost l0 = limited@;
        assert(worker_parallel_units@.contains_key(include_worker_ids@[i as int]));
        let set = worker_parallel_units.get(&include_worker_ids[i]).unwrap();
        let first = take_first(set, target_parallelism_per_worker);
        add_all(&mut limited, &first);
        proof {
            assert forall|u: u32| #[trigger] limited@.contains(u) <==> exists|j: int|
                0 <= j < i + 1 && first_n(us[#[trigger] include_worker_ids@[j]], k).contains(u) by {
                if l0.contains(u) {
                    let j = choose|j: int|
                        0 <= j < i && first_n(us[#[trigger] include_worker_ids@[j]], k).contains(u);
                    assert(0 <= j < i + 1 && first_n(us[include_worker_ids@[j]], k).contains(u));
                }
                if first@.contains(u) {
                    assert(first_n(us[include_worker_ids@[i as int]], k).contains(u));
                }
            }
        }
        i = i + 1;
    }
    proof {
        let all = limited_units(us, include_worker_ids@.to_set(), k);
        assert forall|u: u32| limited@.contains(u) <==> all.contains(u) by {
            if limited@.contains(u) {
                let j = choose|j: int|
                    0 <= j < i && first_n(us[#[trigger] include_worker_ids@[j]], k).contains(u);
                assert(include_worker_ids@.to_set().contains(include_worker_ids@[j]));
            }
            if all.contains(u) {
                let w = choose|w: u32|
                    include_worker_ids@.to_set().contains(w) && #[trigger] first_n(
                        us[w],
                        k,
                    ).contains(u);
                let j = include_worker_ids@.index_of(w);
                assert(include_worker_ids@[j] == w);
            }
        }
        assert(limited@ =~= all);
    }
    remove_all(target_parallel_unit_ids, include_worker_parallel_unit_ids);
    add_all(target_parallel_unit_ids, &limited);
}

/// The parallel units that a fragment with one actor may be on.
fn collect_single_targets(
    units: &BTreeMap<u32, BTreeSet<u32>>,
    unschedulable: &BTreeSet<u32>,
    lost: &BTreeSet<u32>,
) -> (res: BTreeSet<u32>)
    ensures
        res@ == single_targets(sets_of(units@), unschedulable@, lost@),
{
    let ghost us = sets_of(units@);
    let ids = map_keys(units);
    let mut res: BTreeSet<u32> = BTreeSet::new();
    let mut i: usize = 0;
    while i < ids.len()
        invariant
            i <= ids.len(),
            us == sets_of(units@),
            ids@.to_set() == units@.dom(),
            forall|u: u32| #[trigger]
                res@.contains(u) <==> exists|j: int|
                    0 <= j < i && !unschedulable@.contains(#[trigger] ids@[j]) && !lost@.contains(
                        ids@[j],
                    ) && us[ids@[j]].contains(u),
        decreases ids.len() - i,
    {
        let id: u32 = ids[i];
        let ghost res0 = res@;
        assert(ids@.to_set().contains(ids@[i as int]));
        if !unschedulable.contains(&id) && !lost.contains(&id) {
            let set = units.get(&id).unwrap();
            add_all(&mut res, set);
        }
        proof {
            assert forall|u: u32| #[trigger] res@.contains(u) <==> exists|j: int|
                0 <= j < i + 1 && !unschedulable@.contains(#[trigger] ids@[j]) && !lost@.contains(
                    ids@[j],
                ) && us[ids@[j]].contains(u) by {
                if res0.contains(u) {
                    let j = choose|j: int|
                        0 <= j < i && !unschedulable@.contains(#[trigger] ids@[j])
                            && !lost@.contains(ids@[j]) && us[ids@[j]].contains(u);
                    assert(0 <= j < i + 1 && !unschedulable@.contains(ids@[j]));
                }
                if res@.contains(u) && !res0.contains(u) {
                    assert(ids@[i as int] == id);
                    assert(us[id].contains(u));
                }
            }
        }
        i = i + 1;
    }
    proof {
        let all = single_targets(us, unschedulable@, lost@);
        assert forall|u: u32| res@.contains(u) <==> all.contains(u) by {
            if res@.contains(u) {
                let j = choose|j: int|
                    0 <= j < i && !unschedulable@.contains(#[trigger] ids@[j]) && !lost@.contains(
                        ids@[j],
                    ) && us[ids@[j]].contains(u);
                assert(ids@.to_set().contains(ids@[j]));
                assert(us[ids@[j]].contains(u));
            }
            if all.contains(u) {
                let w = choose|w: u32|
                    us.contains_key(w) && !unschedulable@.contains(w) && !lost@.contains(w)
                        && #[trigger] us[w].contains(u);
                assert(ids@.to_set().contains(w));
                let j = ids@.index_of(w);
                assert(ids@[j] == w);
            }
        }
        assert(res@ =~= all);
    }
    res
}

/// The change names a worker twice, or one of which nothing is known.
pub open spec fn names_refused(
    change: WorkerChange,
    units: Map<u32, Set<u32>>,
    hints: Map<u32, Set<u32>>,
) -> bool {
    ||| first_in(ascending_of(change.gained), change.lost) is Some
    ||| first_in(
        ascending_of(change.gained) + ascending_of(change.lost),
        unknown_workers(units, hints),
    ) is Some
}

/// A change that is refused for the workers that it names, or that can be carried out: a fragment of
/// single distribution runs in one place, and where a limit per worker is applied, it is not to a
/// worker that only the hints know.
pub open spec fn change_valid(
    fragment_id: u32,
    change: WorkerChange,
    fragments: Map<u32, &CustomFragmentInfo>,
    statuses: Map<u32, ActorStatus>,
    units: Map<u32, Set<u32>>,
    hints: Map<u32, Set<u32>>,
) -> bool {
    let current = current_units(fragments[fragment_id], statuses);
    let single = fragments[fragment_id].distribution_type == FragmentDistributionType::Single;
    let target = current.union(units_of_all(units, hints, change.gained)).difference(
        units_of_all(units, hints, change.lost),
    );
    fragments.contains_key(fragment_id) && !names_refused(change, units, hints) ==> {
        &&& single ==> current.len() == 1
        &&& change.per_worker is Some && (single || (change.target is None && !target.is_empty()))
            ==> change.gained.intersect(hints.dom()).subset_of(units.dom())
    }
}

/// Carries out the worker change of one fragment.
fn change_fragment(
    fragment_id: u32,
    changes: &WorkerChanges,
    fragments: &BTreeMap<u32, &CustomFragmentInfo>,
    statuses: &BTreeMap<u32, ActorStatus>,
    units: &BTreeMap<u32, BTreeSet<u32>>,
    hints: &BTreeMap<u32, BTreeSet<u32>>,
    unschedulable: &BTreeSet<u32>,
) -> (res: Result<Option<ParallelUnitReschedule>, ScaleError>)
    requires
        fragments@.contains_key(fragment_id) ==> placed(fragments@[fragment_id], statuses@),
        change_valid(
            fragment_id,
            changes@,
            fragments@,
            statuses@,
            sets_of(units@),
            sets_of(hints@),
        ),
    ensures
        stable_change(
            fragment_id,
            changes@,
            fragments@,
            statuses@,
            sets_of(units@),
            sets_of(hints@),
            unschedulable@,
        ) == (match res {
            Ok(Some(change)) => Ok::<Option<UnitChange>, ScaleError>(Some(change@)),
            Ok(None) => Ok::<Option<UnitChange>, ScaleError>(None),
            Err(e) => Err::<Option<UnitChange>, ScaleError>(e),
        }),
{
    let fragment: &CustomFragmentInfo = match fragments.get(&fragment_id) {
        Some(fragment) => *fragment,
        None => {
            return Err(ScaleError::FragmentNotFound { fragment_id });
        },
    };
    if let Some(worker_id) = first_common(
        &changes.include_worker_ids,
        &changes.exclude_worker_ids,
    ) {
        return Err(ScaleError::WorkerInBothLists { worker_id });
    }
    let gained = set_to_vec(&changes.include_worker_ids);
    let lost = set_to_vec(&changes.exclude_worker_ids);
    let mut all = set_to_vec(&changes.include_worker_ids);
    let mut more = set_to_vec(&changes.exclude_worker_ids);
    all.append(&mut more);
    assert(all@ =~= ascending_of(changes@.gained) + ascending_of(changes@.lost));
    if let Some(worker_id) = find_unknown(&all, units, hints) {
        return Err(ScaleError::WorkerNotFound { worker_id });
    }
    let ghost us = sets_of(units@);
    let ghost hs = sets_of(hints@);
    proof {
        let unknown = unknown_workers(us, hs);
        assert forall|i: int| 0 <= i < gained@.len() implies !unknown.contains(
            #[trigger] gained@[i],
        ) by {
            assert(all@[i] == gained@[i]);
        }
        assert forall|i: int| 0 <= i < lost@.len() implies !unknown.contains(
            #[trigger] lost@[i],
        ) by {
            assert(all@[gained@.len() + i] == lost@[i]);
        }
    }
    let current = collect_current_units(fragment, statuses);
    let include_units = collect_units_of_all(&gained, units, hints);
    let exclude_units = collect_units_of_all(&lost, units, hints);
    assert(!names_refused(changes@, us, hs));
    proof {
        let few = changes@.gained.intersect(hs.dom()).subset_of(us.dom());
        assert forall|i: int| 0 <= i < gained@.len() && few implies units@.contains_key(
            #[trigger] gained@[i],
        ) by {
            assert(gained@.to_set().contains(gained@[i]));
            assert(!unknown_workers(us, hs).contains(gained@[i]));
            if !us.contains_key(gained@[i]) {
                assert(changes@.gained.intersect(hs.dom()).contains(gained@[i]));
                assert(us.dom().contains(gained@[i]));
            }
        }
    }
    if fragment.distribution_type() == FragmentDistributionType::Single {
        let mut target = collect_single_targets(
            units,
            unschedulable,
            &changes.exclude_worker_ids,
        );
        if let Some(k) = changes.target_parallelism_per_worker {
            refilter_parallel_unit_id_by_target_parallelism(
                units,
                &gained,
                &include_units,
                &mut target,
                k,
            );
        }
        if target.is_empty() {
            return Err(ScaleError::NoSchedulableParallelUnit { fragment_id });
        }
        let sorted = set_to_vec(&target);
        let places = set_to_vec(&current);
        let single: u32 = places[0];
        proof {
            assert(places@ =~= seq![single]);
            assert(places@.to_set().contains(places@[0]));
            assert forall|u: u32| current@.contains(u) implies u == single by {
                assert(places@.to_set().contains(u));
                assert(places@[places@.index_of(u)] == u);
            }
            assert(current@.subset_of(target@) <==> target@.contains(single));
            if sorted@.len() == 0 {
                assert(sorted@.to_set() =~= Set::<u32>::empty());
            }
        }
        if target.contains(&single) {
            return Ok(None);
        }
        let chosen: u32 = sorted[fragment_id as usize % sorted.len()];
        let mut added: BTreeSet<u32> = BTreeSet::new();
        added.insert(chosen);
        return Ok(
            Some(
                ParallelUnitReschedule {
                    added_parallel_units: added,
                    removed_parallel_units: current,
                },
            ),
        );
    }
    let mut target = current.clone();
    add_all(&mut target, &include_units);
    remove_all(&mut target, &exclude_units);
    if target.is_empty() {
        return Err(ScaleError::NoSchedulableParallelUnit { fragment_id });
    }
    match (changes.target_parallelism, changes.target_parallelism_per_worker) {
        (Some(_), Some(_)) => Err(ScaleError::BothTargetParallelisms { fragment_id }),
        (Some(n), None) => {
            let available: usize = target.len();
            if available < n {
                return Err(
                    ScaleError::TargetParallelismTooLarge { fragment_id, target: n, available },
                );
            }
            let chosen = take_first(&target, n);
            Ok(Some(diff_parallel_unit_change(&current, &chosen)))
        },
        (None, Some(k)) => {
            refilter_parallel_unit_id_by_target_parallelism(
                units,
                &gained,
                &include_units,
                &mut target,
                k,
            );
            Ok(Some(diff_parallel_unit_change(&current, &target)))
        },
        (None, None) => Ok(Some(diff_parallel_unit_change(&current, &target))),
    }
}

/// The worker changes of fragments.
#[derive(Debug)]
pub struct StableResizePolicy {
    pub fragment_worker_changes: BTreeMap<u32, WorkerChanges>,
}

/// The parallel units behind the hints, if there are any.
pub open spec fn hinted(hints: Option<BTreeMap<u32, BTreeSet<u32>>>) -> Map<u32, Set<u32>> {
    match hints {
        Some(m) => sets_of(m@),
        None => Map::empty(),
    }
}

/// Where the policy is not refused at once, the change that reaches the root of a `NoShuffle` tree can
/// be carried out there, or is refused for the workers that it names.
pub open spec fn changes_valid(
    changes: Map<u32, WorkerChange>,
    workers: Seq<WorkerNode>,
    tables: Seq<TableFragments>,
    hints: Map<u32, Set<u32>>,
) -> bool {
    let fragments = fragments_of(tables);
    let sources = sources_of(tables);
    let targets = targets_of(tables);
    first_bad_include(ascending_of(changes.dom()), changes, unschedulable_workers(workers)) is None
        && consistent(fragments, sources, targets, changes) ==> forall|a: u32, f: u32|
        changes.contains_key(a) && !targets.contains(f) && #[trigger] reaches(
            fragments,
            sources,
            targets,
            a,
            f,
        ) ==> change_valid(
            f,
            changes[a],
            fragments,
            statuses_of(tables),
            units_of_workers(workers, Set::full()),
            hints,
        )
}

/// Why a stable resize is refused.
pub open spec fn is_stable_refusal(
    changes: Map<u32, WorkerChange>,
    workers: Seq<WorkerNode>,
    tables: Seq<TableFragments>,
    hints: Map<u32, Set<u32>>,
    e: ScaleError,
) -> bool {
    let fragments = fragments_of(tables);
    let sources = sources_of(tables);
    let targets = targets_of(tables);
    match first_bad_include(
        ascending_of(changes.dom()),
        changes,
        unschedulable_workers(workers),
    ) {
        Some(worker_id) => e == (ScaleError::UnschedulableWorker { worker_id }),
        None => if !consistent(fragments, sources, targets, changes) {
            e matches ScaleError::InconsistentNoShufflePlan { fragment_id, upstream_fragment_id }
                && conflicting(
                fragments,
                sources,
                targets,
                changes,
                fragment_id,
                upstream_fragment_id,
            )
        } else {
            exists|roots: Map<u32, WorkerChange>| #[trigger]
                resolved(fragments, sources, targets, changes, roots) && stable_plan(
                    ascending_of(roots.dom()),
                    roots,
                    fragments,
                    statuses_of(tables),
                    units_of_workers(workers, Set::full()),
                    hints,
                    unschedulable_workers(workers),
                    Map::empty(),
                ) == Err::<Map<u32, UnitChange>, ScaleError>(e)
        },
    }
}

/// The plan of a stable resize.
pub open spec fn is_stable_plan(
    changes: Map<u32, WorkerChange>,
    workers: Seq<WorkerNode>,
    tables: Seq<TableFragments>,
    hints: Map<u32, Set<u32>>,
    plan: Map<u32, UnitChange>,
) -> bool {
    let fragments = fragments_of(tables);
    let sources = sources_of(tables);
    let targets = targets_of(tables);
    &&& first_bad_include(
        ascending_of(changes.dom()),
        changes,
        unschedulable_workers(workers),
    ) is None
    &&& consistent(fragments, sources, targets, changes)
    &&& exists|roots: Map<u32, WorkerChange>| #[trigger]
        resolved(fragments, sources, targets, changes, roots) && (stable_plan(
            ascending_of(roots.dom()),
            roots,
            fragments,
            statuses_of(tables),
            units_of_workers(workers, Set::full()),
            hints,
            unschedulable_workers(workers),
            Map::empty(),
        ) matches Ok(full) && plan == drop_unchanged(full))
}

/// Finds a worker that a fragment is to gain and that is unschedulable.
fn find_bad_include(
    changes: &BTreeMap<u32, WorkerChanges>,
    unschedulable: &BTreeSet<u32>,
) -> (res: Option<u32>)
    ensures
        res == first_bad_include(
            ascending_of(changes@.dom()),
            plans_of(changes@),
            unschedulable@,
        ),
{
    let ids = map_keys(changes);
    let ghost plans = plans_of(changes@);
    let mut i: usize = 0;
    assert(ids@.skip(0) =~= ids@);
    while i < ids.len()
        invariant
            i <= ids.len(),
            ids@.to_set() == changes@.dom(),
            ids@ == ascending_of(changes@.dom()),
            plans == plans_of(changes@),
            first_bad_include(ids@, plans, unschedulable@) == first_bad_include(
                ids@.skip(i as int),
                plans,
                unschedulable@,
            ),
        decreases ids.len() - i,
    {
        assert(ids@.to_set().contains(ids@[i as int]));
        assert(ids@.skip(i as int)[0] == ids@[i as int]);
        assert(ids@.skip(i as int).skip(1) =~= ids@.skip(i + 1));
        let change = changes.get(&ids[i]).unwrap();
        if let Some(w) = first_common(&change.include_worker_ids, unschedulable) {
            return Some(w);
        }
        i = i + 1;
    }
    assert(ids@.skip(i as int) =~= Seq::<u32>::empty());
    None
}

/// The plan that carries out the worker changes of a policy. The changes are moved to the roots
/// of the `NoShuffle` trees first, and fragments that do not change are not in the plan.
pub fn generate_stable_resize_plan(
    policy: StableResizePolicy,
    parallel_unit_hints: Option<BTreeMap<u32, BTreeSet<u32>>>,
    workers: &Vec<WorkerNode>,
    tables: &Vec<TableFragments>,
) -> (res: Result<BTreeMap<u32, ParallelUnitReschedule>, ScaleError>)
    requires
        tables_valid(tables@),
        changes_valid(
            plans_of(policy.fragment_worker_changes@),
            workers@,
            tables@,
            hinted(parallel_unit_hints),
        ),
    ensures
        match res {
            Ok(plan) => is_stable_plan(
                plans_of(policy.fragment_worker_changes@),
                workers@,
                tables@,
                hinted(parallel_unit_hints),
                plans_of(plan@),
            ),
            Err(e) => is_stable_refusal(
                plans_of(policy.fragment_worker_changes@),
                workers@,
                tables@,
                hinted(parallel_unit_hints),
                e,
            ),
        },
{
    let mut changes = policy.fragment_worker_changes;
    let ghost start = plans_of(changes@);
    assert(start.dom() =~= changes@.dom());
    let ghost hints0 = hinted(parallel_unit_hints);
    let hints: BTreeMap<u32, BTreeSet<u32>> = match parallel_unit_hints {
        Some(hints) => hints,
        None => BTreeMap::new(),
    };
    assert(sets_of(hints@) =~= hints0);
    let unschedulable = filter_unschedulable_workers(workers);
    if let Some(worker_id) = find_bad_include(&changes, &unschedulable) {
        return Err(ScaleError::UnschedulableWorker { worker_id });
    }
    let units = collect_units_of_workers(workers, None);
    let actor_map = collect_actors(tables);
    let statuses = collect_statuses(tables);
    let fragments = collect_fragments(tables);
    proof {
        lemma_fragments_of(tables@);
        lemma_ends_known(tables@);
    }
    let mut sources: BTreeSet<u32> = BTreeSet::new();
    let mut targets: BTreeSet<u32> = BTreeSet::new();
    build_no_shuffle_relation_index(&actor_map, &mut sources, &mut targets);
    assert(sources@ =~= sources_of(tables@));
    assert(targets@ =~= targets_of(tables@));
    if let Err(e) = resolve_no_shuffle_upstream_fragments(
        &mut changes,
        &fragments,
        &sources,
        &targets,
    ) {
        return Err(e);
    }
    let ghost roots = plans_of(changes@);
    assert(roots.dom() =~= changes@.dom());
    proof {
        assert forall|f: u32| #[trigger] roots.contains_key(f) implies change_valid(
            f,
            roots[f],
            fragments@,
            statuses@,
            sets_of(units@),
            hints0,
        ) by {
            let a = choose|a: u32|
                start.contains_key(a) && #[trigger] reaches(fragments@, sources@, targets@, a, f);
            assert(roots[f] == start[a]);
        }
    }
    let mut target_plan: BTreeMap<u32, ParallelUnitReschedule> = BTreeMap::new();
    let ids = map_keys(&changes);
    assert(plans_of(target_plan@) =~= Map::<u32, UnitChange>::empty());
    assert(ids@.skip(0) =~= ids@);
    let mut i: usize = 0;
    while i < ids.len()
        invariant
            i <= ids.len(),
            ids@.to_set() == changes@.dom(),
            ids@ == ascending_of(roots.dom()),
            start == plans_of(policy.fragment_worker_changes@),
            roots == plans_of(changes@),
            hints0 == hinted(parallel_unit_hints),
            sets_of(hints@) == hints0,
            fragments@ == fragments_of(tables@),
            statuses@ == statuses_of(tables@),
            sets_of(units@) == units_of_workers(workers@, Set::full()),
            unschedulable@ == unschedulable_workers(workers@),
            resolved(fragments@, sources_of(tables@), targets_of(tables@), start, roots),
            consistent(fragments@, sources_of(tables@), targets_of(tables@), start),
            first_bad_include(ascending_of(start.dom()), start, unschedulable@) is None,
            forall|f: u32| #[trigger]
                roots.contains_key(f) ==> change_valid(
                    f,
                    roots[f],
                    fragments@,
                    statuses@,
                    sets_of(units@),
                    hints0,
                ),
            forall|f: u32| #[trigger]
                fragments@.contains_key(f) ==> placed(fragments@[f], statuses@),
            stable_plan(
                ids@,
                roots,
                fragments@,
                statuses@,
                sets_of(units@),
                hints0,
                unschedulable@,
                Map::empty(),
            ) == stable_plan(
                ids@.skip(i as int),
                roots,
                fragments@,
                statuses@,
                sets_of(units@),
                hints0,
                unschedulable@,
                plans_of(target_plan@),
            ),
        decreases ids.len() - i,
    {
        let id: u32 = ids[i];
        assert(ids@.to_set().contains(ids@[i as int]));
        assert(roots.contains_key(id));
        assert(ids@.skip(i as int)[0] == id);
        assert(ids@.skip(i as int).skip(1) =~= ids@.skip(i + 1));
        let change = changes.get(&id).unwrap();
        let ghost plan0 = target_plan@;
        match change_fragment(id, change, &fragments, &statuses, &units, &hints, &unschedulable) {
            Ok(Some(change)) => {
                target_plan.insert(id, change);
                assert(plans_of(target_plan@) =~= plans_of(plan0).insert(id, change@));
            },
            Ok(None) => {},
            Err(e) => {
                return Err(e);
            },
        }
        i = i + 1;
    }
    assert(ids@.skip(i as int) =~= Seq::<u32>::empty());
    retain_changed(&mut target_plan);
    Ok(target_plan)
}

/// The ways to resize fragments.
#[derive(Debug)]
pub enum Policy {
    StableResizePolicy(StableResizePolicy),
}

/// The plan that a policy asks for.
pub fn get_reschedule_plan(
    policy: Policy,
    workers: &Vec<WorkerNode>,
    tables: &Vec<TableFragments>,
) -> (res: Result<BTreeMap<u32, ParallelUnitReschedule>, ScaleError>)
    requires
        tables_valid(tables@),
        policy matches Policy::StableResizePolicy(resize) && changes_valid(
            plans_of(resize.fragment_worker_changes@),
            workers@,
            tables@,
            Map::empty(),
        ),
    ensures
        policy matches Policy::StableResizePolicy(resize) ==> match res {
            Ok(plan) => is_stable_plan(
                plans_of(resize.fragment_worker_changes@),
                workers@,
                tables@,
                Map::empty(),
                plans_of(plan@),
            ),
            Err(e) => is_stable_refusal(
                plans_of(resize.fragment_worker_changes@),
                workers@,
                tables@,
                Map::empty(),
                e,
            ),
        },
{
    match policy {
        Policy::StableResizePolicy(resize) => generate_stable_resize_plan(
            resize,
            None,
            workers,
            tables,
        ),
    }
}

} // verus!
