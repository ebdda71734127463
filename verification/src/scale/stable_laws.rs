//! What a change of workers comes to, said of the parallel units of a fragment.
use crate::common::collections::{ascending_of, lemma_ascending_exists, lemma_ascending_len};
use crate::scale::model::{ActorStatus, CustomFragmentInfo, ScaleError};
use crate::scale::model::UnitChange;
use crate::scale::stable::{limited_units, refiltered, single_targets, stable_change, stable_hash};
use crate::scale::stable::{first_bad_include, stable_plan, stable_single, units_of, units_of_all};
use crate::scale::stable::WorkerChange;
use crate::scale::units::first_n;
use vstd::prelude::*;

verus! {

/// The worker has the parallel unit: as it is known now, or, where nothing is known now, as the hints say.
pub open spec fn has(units: Map<u32, Set<u32>>, hints: Map<u32, Set<u32>>, w: u32, u: u32) -> bool {
    if units.contains_key(w) {
        units[w].contains(u)
    } else {
        hints[w].contains(u)
    }
}

/// One of the workers has the parallel unit.
pub open spec fn some_has(
    units: Map<u32, Set<u32>>,
    hints: Map<u32, Set<u32>>,
    workers: Set<u32>,
    u: u32,
) -> bool {
    exists|w: u32| workers.contains(w) && #[trigger] has(units, hints, w, u)
}

/// The parallel units that are left to a fragment: those that it has and those of the workers that it gains,
/// without those of the workers that it loses.
pub open spec fn left_to(
    change: WorkerChange,
    current: Set<u32>,
    units: Map<u32, Set<u32>>,
    hints: Map<u32, Set<u32>>,
) -> Set<u32> {
    Set::new(
        |u: u32|
            (current.contains(u) || some_has(units, hints, change.gained, u)) && !some_has(
                units,
                hints,
                change.lost,
                u,
            ),
    )
}

proof fn lemma_units_of_all(
    units: Map<u32, Set<u32>>,
    hints: Map<u32, Set<u32>>,
    workers: Set<u32>,
    u: u32,
)
    ensures
        units_of_all(units, hints, workers).contains(u) <==> some_has(units, hints, workers, u),
{
    if units_of_all(units, hints, workers).contains(u) {
        let w = choose|w: u32|
            workers.contains(w) && #[trigger] units_of(units, hints, w).contains(u);
        assert(has(units, hints, w, u));
    }
    if some_has(units, hints, workers, u) {
        let w = choose|w: u32| workers.contains(w) && #[trigger] has(units, hints, w, u);
        assert(units_of(units, hints, w).contains(u));
    }
}

/// The set holds the given number of smallest elements of the other, or all where there are fewer.
pub open spec fn are_smallest(part: Set<u32>, whole: Set<u32>, n: int) -> bool {
    &&& part.subset_of(whole)
    &&& part.finite()
    &&& n <= whole.len() ==> part.len() == n
    &&& n > whole.len() ==> part == whole
    &&& forall|u: u32, v: u32|
        #![trigger part.contains(u), whole.contains(v)]
        part.contains(u) && whole.contains(v) && !part.contains(v) ==> u < v
}

/// The first parallel units are the smallest ones.
pub proof fn lemma_first_are_smallest(set: Set<u32>, n: int)
    requires
        set.finite(),
        0 <= n,
    ensures
        are_smallest(first_n(set, n), set, n),
{
    lemma_ascending_exists(set);
    let s = ascending_of(set);
    let m = if n <= s.len() {
        n
    } else {
        s.len() as int
    };
    let part = s.take(m);
    lemma_ascending_len(part);
    assert(first_n(set, n) == part.to_set());
    assert forall|u: u32| part.to_set().contains(u) implies set.contains(u) by {
        let i = part.index_of(u);
        assert(s[i] == u);
        assert(s.to_set().contains(u));
    }
    if n > set.len() {
        assert(part =~= s);
    }
    assert forall|u: u32, v: u32|
        #![trigger part.to_set().contains(u), set.contains(v)]
        part.to_set().contains(u) && set.contains(v) && !part.to_set().contains(v) implies u < v by {
        let i = part.index_of(u);
        assert(s[i] == u);
        assert(s.to_set().contains(v));
        let j = s.index_of(v);
        if j < m {
            assert(part[j] == v);
        }
    }
}

/// What a hash-distributed fragment comes to when it gains and loses workers. Without a target it is on all that
/// is left to it. With a target it is on that many, the smallest; it is refused if fewer are left, or if there
/// are two targets, or if nothing is left. It gains nothing that it has and loses nothing that it has not.
pub proof fn lemma_hash_units(
    fragment_id: u32,
    change: WorkerChange,
    current: Set<u32>,
    units: Map<u32, Set<u32>>,
    hints: Map<u32, Set<u32>>,
)
    requires
        left_to(change, current, units, hints).finite(),
        left_to(change, current, units, hints).len() <= usize::MAX,
    ensures
        ({
            let left = left_to(change, current, units, hints);
            let res = stable_hash(fragment_id, change, current, units, hints);
            &&& left.len() == 0 ==> res == Err::<Option<UnitChange>, ScaleError>(
                ScaleError::NoSchedulableParallelUnit { fragment_id },
            )
            &&& left.len() > 0 ==> match (change.target, change.per_worker) {
                (Some(_), Some(_)) => res == Err::<Option<UnitChange>, ScaleError>(
                    ScaleError::BothTargetParallelisms { fragment_id },
                ),
                (Some(n), None) => if n > left.len() {
                    res == Err::<Option<UnitChange>, ScaleError>(
                        ScaleError::TargetParallelismTooLarge {
                            fragment_id,
                            target: n,
                            available: left.len() as usize,
                        },
                    )
                } else {
                    (res matches Ok(Some(c)) && are_smallest(
                        current.difference(c.removed).union(c.added),
                        left,
                        n as int,
                    ))
                },
                (None, None) => res matches Ok(Some(c)) && current.difference(c.removed).union(
                    c.added,
                ) == left,
                (None, Some(_)) => res matches Ok(Some(_)),
            }
            &&& res matches Ok(Some(c)) ==> c.removed.subset_of(current) && c.added.disjoint(
                current,
            )
        }),
{
    let left = left_to(change, current, units, hints);
    let target = current.union(units_of_all(units, hints, change.gained)).difference(
        units_of_all(units, hints, change.lost),
    );
    assert forall|u: u32| left.contains(u) <==> target.contains(u) by {
        lemma_units_of_all(units, hints, change.gained, u);
        lemma_units_of_all(units, hints, change.lost, u);
    }
    assert(left =~= target);
    if left.len() == 0 {
        assert(target =~= Set::empty());
    } else {
        assert(!target.is_empty());
    }
    match change.target {
        Some(n) => {
            lemma_first_are_smallest(target, n as int);
            let part = first_n(target, n as int);
            let c = crate::scale::units::unit_diff(current, part);
            assert(current.difference(c.removed).union(c.added) =~= part);
        },
        None => {
            let c = crate::scale::units::unit_diff(current, target);
            assert(current.difference(c.removed).union(c.added) =~= target);
        },
    }
}

/// Where each worker that is gained counts only with so many parallel units, the fragment is on the smallest ones
/// of each of them, and otherwise on what is left to it and belongs to none of them.
pub proof fn lemma_hash_units_per_worker(
    fragment_id: u32,
    change: WorkerChange,
    current: Set<u32>,
    units: Map<u32, Set<u32>>,
    hints: Map<u32, Set<u32>>,
    k: usize,
    c: UnitChange,
    u: u32,
    w: u32,
)
    requires
        stable_hash(fragment_id, change, current, units, hints) == Ok::<
            Option<UnitChange>,
            ScaleError,
        >(Some(c)),
        change.target is None,
        change.per_worker == Some(k),
        forall|v: u32| #[trigger]
            change.gained.contains(v) ==> units.contains_key(v) && units[v].finite(),
        forall|v: u32, x: u32|
            #![trigger units[v], units[x]]
            change.gained.contains(v) && change.gained.contains(x) && v != x ==> units[v].disjoint(
                units[x],
            ),
    ensures
        ({
            let after = current.difference(c.removed).union(c.added);
            &&& !some_has(units, hints, change.gained, u) ==> (after.contains(u) <==> left_to(
                change,
                current,
                units,
                hints,
            ).contains(u))
            &&& change.gained.contains(w) ==> are_smallest(
                after.intersect(units[w]),
                units[w],
                k as int,
            )
        }),
{
    let come = units_of_all(units, hints, change.gained);
    let target = current.union(come).difference(units_of_all(units, hints, change.lost));
    let part = refiltered(target, units, change.gained, come, k as int);
    let after = current.difference(c.removed).union(c.added);
    assert(after =~= part);
    lemma_units_of_all(units, hints, change.gained, u);
    lemma_units_of_all(units, hints, change.lost, u);
    assert(limited_units(units, change.gained, k as int).contains(u) ==> some_has(
        units,
        hints,
        change.gained,
        u,
    )) by {
        if limited_units(units, change.gained, k as int).contains(u) {
            let v = choose|v: u32|
                change.gained.contains(v) && #[trigger] first_n(units[v], k as int).contains(u);
            lemma_first_are_smallest(units[v], k as int);
            assert(has(units, hints, v, u));
        }
    }
    if change.gained.contains(w) {
        lemma_first_are_smallest(units[w], k as int);
        let own = first_n(units[w], k as int);
        assert forall|x: u32| after.intersect(units[w]).contains(x) <==> own.contains(x) by {
            lemma_units_of_all(units, hints, change.gained, x);
            if units[w].contains(x) {
                assert(has(units, hints, w, x));
                assert(come.contains(x));
                if after.contains(x) {
                    let v = choose|v: u32|
                        change.gained.contains(v) && #[trigger] first_n(
                            units[v],
                            k as int,
                        ).contains(x);
                    lemma_first_are_smallest(units[v], k as int);
                    if v != w {
                        assert(units[v].disjoint(units[w]));
                    }
                }
                if own.contains(x) {
                    assert(limited_units(units, change.gained, k as int).contains(x));
                }
            }
        }
        assert(after.intersect(units[w]) =~= own);
    }
}

/// A fragment with one actor stays if every parallel unit that it is on belongs to a worker that may be used and
/// is not lost; else it moves to one such unit, and it is refused if there is none.
pub proof fn lemma_single_unit(
    fragment_id: u32,
    change: WorkerChange,
    current: Set<u32>,
    units: Map<u32, Set<u32>>,
    hints: Map<u32, Set<u32>>,
    unschedulable: Set<u32>,
)
    requires
        change.per_worker is None,
        single_targets(units, unschedulable, change.lost).finite(),
    ensures
        ({
            let open = |u: u32|
                exists|w: u32|
                    units.contains_key(w) && !unschedulable.contains(w) && !change.lost.contains(w)
                        && #[trigger] units[w].contains(u);
            let res = stable_single(
                fragment_id,
                change,
                current,
                units,
                hints,
                unschedulable,
            );
            &&& (forall|u: u32| !#[trigger] open(u)) ==> res == Err::<
                Option<UnitChange>,
                ScaleError,
            >(ScaleError::NoSchedulableParallelUnit { fragment_id })
            &&& (exists|u: u32| #[trigger] open(u)) ==> res is Ok
            &&& (exists|u: u32| #[trigger] open(u)) ==> (res matches Ok(None) <==> forall|u: u32|
                #[trigger] current.contains(u) ==> open(u))
            &&& res matches Ok(Some(c)) ==> c.removed == current && exists|u: u32|
                #[trigger] open(u) && c.added == Set::<u32>::empty().insert(u)
        }),
{
    let target = single_targets(units, unschedulable, change.lost);
    let open = |u: u32|
        exists|w: u32|
            units.contains_key(w) && !unschedulable.contains(w) && !change.lost.contains(w)
                && #[trigger] units[w].contains(u);
    assert forall|u: u32| target.contains(u) <==> #[trigger] open(u) by {}
    let res = stable_single(fragment_id, change, current, units, hints, unschedulable);
    if target.is_empty() {
        assert forall|u: u32| !#[trigger] open(u) by {
            assert(!target.contains(u));
        }
    } else {
        let x = target.choose();
        assert(target.contains(x));
        assert(open(x));
        lemma_ascending_exists(target);
        let s = ascending_of(target);
        assert(target.len() > 0);
        let i = fragment_id as int % target.len() as int;
        assert(0 <= i < s.len());
        assert(s.to_set().contains(s[i]));
        assert(open(s[i]));
        if current.subset_of(target) {
            assert forall|u: u32| #[trigger] current.contains(u) implies open(u) by {
                assert(target.contains(u));
            }
        } else {
            let y = choose|y: u32| current.contains(y) && !target.contains(y);
            assert(current.contains(y) && !open(y));
        }
    }
}

/// A change of workers is refused where the fragment is not known, where a worker is gained and lost, and where
/// nothing is known of a worker that it names.
pub proof fn lemma_change_refused(
    fragment_id: u32,
    change: WorkerChange,
    fragments: Map<u32, &CustomFragmentInfo>,
    statuses: Map<u32, ActorStatus>,
    units: Map<u32, Set<u32>>,
    hints: Map<u32, Set<u32>>,
    unschedulable: Set<u32>,
    w: u32,
)
    requires
        change.gained.finite(),
        change.lost.finite(),
    ensures
        ({
            let res = stable_change(
                fragment_id,
                change,
                fragments,
                statuses,
                units,
                hints,
                unschedulable,
            );
            &&& !fragments.contains_key(fragment_id) ==> res == Err::<
                Option<UnitChange>,
                ScaleError,
            >(ScaleError::FragmentNotFound { fragment_id })
            &&& fragments.contains_key(fragment_id) && change.gained.contains(w)
                && change.lost.contains(w) ==> (res matches Err(ScaleError::WorkerInBothLists { .. }))
            &&& fragments.contains_key(fragment_id) && (change.gained.contains(w)
                || change.lost.contains(w)) && !units.contains_key(w) && !hints.contains_key(w)
                ==> res is Err
            &&& res matches Err(ScaleError::WorkerInBothLists { worker_id })
                ==> change.gained.contains(worker_id) && change.lost.contains(worker_id)
        }),
{
    lemma_ascending_exists(change.gained);
    lemma_ascending_exists(change.lost);
    let a = ascending_of(change.gained);
    let b = ascending_of(change.lost);
    let unknown = crate::scale::stable::unknown_workers(units, hints);
    crate::common::collections::lemma_first_in(a, change.lost);
    crate::common::collections::lemma_first_in(a + b, unknown);
    if change.gained.contains(w) {
        assert(a.to_set().contains(w));
        let i = a.index_of(w);
        assert(a[i] == w);
        assert((a + b)[i] == w);
    }
    if change.lost.contains(w) {
        assert(b.to_set().contains(w));
        let i = b.index_of(w);
        assert((a + b)[a.len() + i] == w);
    }
    match crate::common::collections::first_in(a, change.lost) {
        Some(x) => {
            assert(a.to_set().contains(x));
        },
        None => {},
    }
}

proof fn lemma_bad_include(ids: Seq<u32>, changes: Map<u32, WorkerChange>, unschedulable: Set<u32>)
    requires
        forall|i: int| 0 <= i < ids.len() ==> changes[#[trigger] ids[i]].gained.finite(),
    ensures
        match first_bad_include(ids, changes, unschedulable) {
            Some(w) => unschedulable.contains(w) && exists|i: int|
                0 <= i < ids.len() && changes[#[trigger] ids[i]].gained.contains(w),
            None => forall|i: int, w: u32|
                0 <= i < ids.len() && #[trigger] changes[ids[i]].gained.contains(w)
                    ==> !unschedulable.contains(w),
        },
    decreases ids.len(),
{
    if ids.len() > 0 {
        let rest = ids.skip(1);
        assert forall|i: int| 0 <= i < rest.len() implies changes[
        #[trigger] rest[i]].gained.finite() by {
            assert(rest[i] == ids[i + 1]);
        }
        lemma_bad_include(rest, changes, unschedulable);
        let gained = changes[ids[0]].gained;
        assert(ids[0] == ids[0]);
        lemma_ascending_exists(gained);
        let s = ascending_of(gained);
        crate::common::collections::lemma_first_in(s, unschedulable);
        match crate::common::collections::first_in(s, unschedulable) {
            Some(w) => {
                assert(s.to_set().contains(w));
                assert(changes[ids[0]].gained.contains(w));
            },
            None => match first_bad_include(rest, changes, unschedulable) {
                Some(w) => {
                    let i = choose|i: int|
                        0 <= i < rest.len() && changes[#[trigger] rest[i]].gained.contains(w);
                    assert(rest[i] == ids[i + 1]);
                },
                None => {
                    assert forall|i: int, w: u32|
                        0 <= i < ids.len() && #[trigger] changes[ids[i]].gained.contains(
                            w,
                        ) implies !unschedulable.contains(w) by {
                        if i == 0 {
                            assert(s.to_set().contains(w));
                            let j = s.index_of(w);
                            assert(!unschedulable.contains(s[j]));
                        } else {
                            assert(rest[i - 1] == ids[i]);
                            assert(changes[rest[i - 1]].gained.contains(w));
                        }
                    }
                },
            },
        }
    }
}

/// A worker that is not to be scheduled can be gained by no fragment: the changes are refused for such a worker
/// if and only if one is named.
pub proof fn lemma_no_bad_worker_gained(
    changes: Map<u32, WorkerChange>,
    unschedulable: Set<u32>,
    f: u32,
    w: u32,
)
    requires
        changes.dom().finite(),
        forall|g: u32| #[trigger] changes.contains_key(g) ==> changes[g].gained.finite(),
    ensures
        ({
            let bad = first_bad_include(ascending_of(changes.dom()), changes, unschedulable);
            &&& bad is None && changes.contains_key(f) && changes[f].gained.contains(w)
                ==> !unschedulable.contains(w)
            &&& bad matches Some(x) ==> unschedulable.contains(x) && exists|g: u32| #[trigger]
                changes.contains_key(g) && changes[g].gained.contains(x)
        }),
{
    lemma_ascending_exists(changes.dom());
    let ids = ascending_of(changes.dom());
    assert forall|i: int| 0 <= i < ids.len() implies changes[#[trigger] ids[i]].gained.finite() by {
        assert(ids.to_set().contains(ids[i]));
        assert(changes.contains_key(ids[i]));
    }
    lemma_bad_include(ids, changes, unschedulable);
    match first_bad_include(ids, changes, unschedulable) {
        Some(x) => {
            let i = choose|i: int|
                0 <= i < ids.len() && changes[#[trigger] ids[i]].gained.contains(x);
            assert(ids.to_set().contains(ids[i]));
            assert(changes.contains_key(ids[i]));
        },
        None => {
            if changes.contains_key(f) && changes[f].gained.contains(w) {
                assert(ids.to_set().contains(f));
                let i = ids.index_of(f);
                assert(changes[ids[i]].gained.contains(w));
            }
        },
    }
}

/// The plan holds what the change of each fragment comes to, and nothing of a fragment that stays.
pub proof fn lemma_stable_entries(
    ids: Seq<u32>,
    changes: Map<u32, WorkerChange>,
    fragments: Map<u32, &CustomFragmentInfo>,
    statuses: Map<u32, ActorStatus>,
    units: Map<u32, Set<u32>>,
    hints: Map<u32, Set<u32>>,
    unschedulable: Set<u32>,
    plan: Map<u32, UnitChange>,
    f: u32,
)
    requires
        stable_plan(ids, changes, fragments, statuses, units, hints, unschedulable, plan) is Ok,
    ensures
        ({
            let after = stable_plan(
                ids,
                changes,
                fragments,
                statuses,
                units,
                hints,
                unschedulable,
                plan,
            )->Ok_0;
            let one = stable_change(
                f,
                changes[f],
                fragments,
                statuses,
                units,
                hints,
                unschedulable,
            );
            &&& ids.contains(f) ==> one is Ok
            &&& ids.contains(f) && one->Ok_0 is Some ==> after.contains_key(f) && after[f]
                == one->Ok_0->Some_0
            &&& !ids.contains(f) || one->Ok_0 is None ==> (after.contains_key(f)
                <==> plan.contains_key(f)) && (plan.contains_key(f) ==> after[f] == plan[f])
        }),
    decreases ids.len(),
{
    if ids.len() > 0 {
        let rest = ids.skip(1);
        assert(ids.contains(f) <==> rest.contains(f) || ids[0] == f) by {
            if ids.contains(f) {
                let i = ids.index_of(f);
                if i > 0 {
                    assert(rest[i - 1] == f);
                }
            }
            if rest.contains(f) {
                assert(ids[rest.index_of(f) + 1] == f);
            }
        }
        match stable_change(
            ids[0],
            changes[ids[0]],
            fragments,
            statuses,
            units,
            hints,
            unschedulable,
        ) {
            Err(_) => {},
            Ok(None) => {
                lemma_stable_entries(
                    rest,
                    changes,
                    fragments,
                    statuses,
                    units,
                    hints,
                    unschedulable,
                    plan,
                    f,
                );
            },
            Ok(Some(change)) => {
                lemma_stable_entries(
                    rest,
                    changes,
                    fragments,
                    statuses,
                    units,
                    hints,
                    unschedulable,
                    plan.insert(ids[0], change),
                    f,
                );
            },
        }
    } else {
        assert(!ids.contains(f));
    }
}

} // verus!
