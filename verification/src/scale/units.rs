//! Sets of parallel units: whose they are, how they differ, and which of them to use.
use crate::common::collections::{ascending, ascending_of, lemma_to_set_push, map_keys, set_to_vec};
use crate::common::worker::{is_unschedulable, ParallelUnit, WorkerNode};
use crate::scale::model::{ParallelUnitReschedule, ScaleError, UnitChange};
use crate::scale::ring::{add_points, count_of, distribution_on, fair_shares};
use crate::scale::ring::{total_capacity, ConsistentHashRing, VIRTUAL_NODES};
use std::collections::BTreeMap;
use std::collections::BTreeSet;
use vstd::prelude::*;

verus! {

broadcast use {
    vstd::std_specs::btree::group_btree_axioms,
    vstd::laws_cmp::group_laws_cmp,
};

/// What has to be added to and removed from `current` to get `target`.
pub open spec fn unit_diff(current: Set<u32>, target: Set<u32>) -> UnitChange {
    UnitChange { added: target.difference(current), removed: current.difference(target) }
}

/// Making the change that `unit_diff` asks for leads from the current units to the target.
pub proof fn lemma_unit_diff(current: Set<u32>, target: Set<u32>)
    ensures
        current.difference(unit_diff(current, target).removed).union(
            unit_diff(current, target).added,
        ) == target,
        unit_diff(current, target).added.disjoint(unit_diff(current, target).removed),
        unit_diff(current, target).removed.subset_of(current),
{
    assert(current.difference(unit_diff(current, target).removed).union(
        unit_diff(current, target).added,
    ) =~= target);
}

/// The elements of `a` that are not in `b`.
fn difference(a: &BTreeSet<u32>, b: &BTreeSet<u32>) -> (res: BTreeSet<u32>)
    ensures
        res@ == a@.difference(b@),
{
    let v = set_to_vec(a);
    let mut res: BTreeSet<u32> = BTreeSet::new();
    let mut i: usize = 0;
    assert(res@ =~= v@.take(0).to_set().difference(b@));
    while i < v.len()
        invariant
            i <= v.len(),
            res@ == v@.take(i as int).to_set().difference(b@),
        decreases v.len() - i,
    {
        if !b.contains(&v[i]) {
            res.insert(v[i]);
        }
        proof {
            assert(v@.take(i + 1) =~= v@.take(i as int).push(v@[i as int]));
            lemma_to_set_push(v@.take(i as int), v@[i as int]);
            assert(res@ =~= v@.take(i + 1).to_set().difference(b@));
        }
        i = i + 1;
    }
    assert(v@.take(i as int) =~= v@);
    res
}

/// What has to be added and removed to get from the current parallel units to the target.
pub fn diff_parallel_unit_change(
    fragment_parallel_unit_ids: &BTreeSet<u32>,
    target_parallel_unit_ids: &BTreeSet<u32>,
) -> (res: ParallelUnitReschedule)
    ensures
        res@ == unit_diff(fragment_parallel_unit_ids@, target_parallel_unit_ids@),
{
    ParallelUnitReschedule {
        added_parallel_units: difference(target_parallel_unit_ids, fragment_parallel_unit_ids),
        removed_parallel_units: difference(fragment_parallel_unit_ids, target_parallel_unit_ids),
    }
}

/// Adds the elements of `b` to `a`.
pub fn add_all(a: &mut BTreeSet<u32>, b: &BTreeSet<u32>)
    ensures
        final(a)@ == old(a)@.union(b@),
{
    let v = set_to_vec(b);
    let ghost a0 = a@;
    let mut i: usize = 0;
    assert(a@ =~= a0.union(v@.take(0).to_set()));
    while i < v.len()
        invariant
            i <= v.len(),
            a@ == a0.union(v@.take(i as int).to_set()),
        decreases v.len() - i,
    {
        a.insert(v[i]);
        proof {
            assert(v@.take(i + 1) =~= v@.take(i as int).push(v@[i as int]));
            lemma_to_set_push(v@.take(i as int), v@[i as int]);
            assert(a@ =~= a0.union(v@.take(i + 1).to_set()));
        }
        i = i + 1;
    }
    assert(v@.take(i as int) =~= v@);
}

/// Takes the elements of `b` out of `a`.
pub fn remove_all(a: &mut BTreeSet<u32>, b: &BTreeSet<u32>)
    ensures
        final(a)@ == old(a)@.difference(b@),
{
    let v = set_to_vec(b);
    let ghost a0 = a@;
    let mut i: usize = 0;
    assert(a@ =~= a0.difference(v@.take(0).to_set()));
    while i < v.len()
        invariant
            i <= v.len(),
            a@ == a0.difference(v@.take(i as int).to_set()),
        decreases v.len() - i,
    {
        a.remove(&v[i]);
        proof {
            assert(v@.take(i + 1) =~= v@.take(i as int).push(v@[i as int]));
            lemma_to_set_push(v@.take(i as int), v@[i as int]);
            assert(a@ =~= a0.difference(v@.take(i + 1).to_set()));
        }
        i = i + 1;
    }
    assert(v@.take(i as int) =~= v@);
}

/// The first `n` elements of a set, in ascending order.
pub open spec fn first_n(set: Set<u32>, n: int) -> Set<u32> {
    let s = ascending_of(set);
    s.take(if n <= s.len() {
        n
    } else {
        s.len() as int
    }).to_set()
}

/// The first `n` elements of a set, in ascending order.
pub fn take_first(set: &BTreeSet<u32>, n: usize) -> (res: BTreeSet<u32>)
    ensures
        res@ == first_n(set@, n as int),
{
    let v = set_to_vec(set);
    let m: usize = if n <= v.len() {
        n
    } else {
        v.len()
    };
    let mut res: BTreeSet<u32> = BTreeSet::new();
    let mut i: usize = 0;
    assert(res@ =~= v@.take(0).to_set());
    while i < m
        invariant
            i <= m,
            m <= v.len(),
            res@ == v@.take(i as int).to_set(),
        decreases m - i,
    {
        res.insert(v[i]);
        proof {
            assert(v@.take(i + 1) =~= v@.take(i as int).push(v@[i as int]));
            lemma_to_set_push(v@.take(i as int), v@[i as int]);
        }
        i = i + 1;
    }
    res
}

/// The sets behind a map of sets.
pub open spec fn sets_of(m: Map<u32, BTreeSet<u32>>) -> Map<u32, Set<u32>> {
    Map::new(|k: u32| m.contains_key(k), |k: u32| m[k]@)
}

/// The elements of all sets of the map.
pub open spec fn all_units(slots: Map<u32, Set<u32>>) -> Set<u32> {
    Set::new(|u: u32| exists|w: u32| slots.contains_key(w) && #[trigger] slots[w].contains(u))
}

/// The elements of all sets of the map.
pub fn collect_all(slots: &BTreeMap<u32, BTreeSet<u32>>) -> (res: BTreeSet<u32>)
    ensures
        res@ == all_units(sets_of(slots@)),
{
    let ids = map_keys(slots);
    let ghost sets = sets_of(slots@);
    let mut res: BTreeSet<u32> = BTreeSet::new();
    let mut i: usize = 0;
    while i < ids.len()
        invariant
            i <= ids.len(),
            ids@.to_set() == slots@.dom(),
            sets == sets_of(slots@),
            forall|u: u32| #[trigger]
                res@.contains(u) <==> exists|j: int|
                    0 <= j < i && sets[#[trigger] ids@[j]].contains(u),
        decreases ids.len() - i,
    {
        assert(ids@.to_set().contains(ids@[i as int]));
        let ghost res0 = res@;
        let set = slots.get(&ids[i]).unwrap();
        add_all(&mut res, set);
        proof {
            assert forall|u: u32| #[trigger] res@.contains(u) <==> exists|j: int|
                0 <= j < i + 1 && sets[#[trigger] ids@[j]].contains(u) by {
                if res0.contains(u) {
                    let j = choose|j: int| 0 <= j < i && sets[#[trigger] ids@[j]].contains(u);
                    assert(0 <= j < i + 1 && sets[ids@[j]].contains(u));
                }
                if set@.contains(u) {
                    assert(sets[ids@[i as int]].contains(u));
                }
            }
        }
        i = i + 1;
    }
    proof {
        assert forall|u: u32| res@.contains(u) <==> all_units(sets).contains(u) by {
            if res@.contains(u) {
                let j = choose|j: int| 0 <= j < i && sets[#[trigger] ids@[j]].contains(u);
                assert(ids@.to_set().contains(ids@[j]));
                assert(sets.contains_key(ids@[j]) && sets[ids@[j]].contains(u));
            }
            if all_units(sets).contains(u) {
                let w = choose|w: u32| sets.contains_key(w) && #[trigger] sets[w].contains(u);
                assert(ids@.to_set().contains(w));
                let j = ids@.index_of(w);
                assert(ids@[j] == w);
            }
        }
        assert(res@ =~= all_units(sets));
    }
    res
}

/// The ids of parallel units.
pub open spec fn unit_ids(units: Seq<ParallelUnit>) -> Set<u32>
    decreases units.len(),
{
    if units.len() == 0 {
        Set::empty()
    } else {
        unit_ids(units.drop_last()).insert(units.last().id)
    }
}

/// The ids of parallel units.
pub fn collect_unit_ids(units: &Vec<ParallelUnit>) -> (res: BTreeSet<u32>)
    ensures
        res@ == unit_ids(units@),
{
    let mut res: BTreeSet<u32> = BTreeSet::new();
    let mut i: usize = 0;
    assert(units@.take(0) =~= Seq::<ParallelUnit>::empty());
    while i < units.len()
        invariant
            i <= units.len(),
            res@ == unit_ids(units@.take(i as int)),
        decreases units.len() - i,
    {
        res.insert(units[i].id);
        assert(units@.take(i + 1).drop_last() =~= units@.take(i as int));
        i = i + 1;
    }
    assert(units@.take(i as int) =~= units@);
    res
}

/// The parallel units of each worker among `wanted`.
pub open spec fn units_of_workers(workers: Seq<WorkerNode>, wanted: Set<u32>) -> Map<u32, Set<u32>>
    decreases workers.len(),
{
    if workers.len() == 0 {
        Map::empty()
    } else {
        let m = units_of_workers(workers.drop_last(), wanted);
        if wanted.contains(workers.last().id) {
            m.insert(workers.last().id, unit_ids(workers.last().parallel_units@))
        } else {
            m
        }
    }
}

/// The parallel units of each worker, or of each wanted worker only.
pub fn collect_units_of_workers(workers: &Vec<WorkerNode>, wanted: Option<&BTreeSet<u32>>) -> (res:
    BTreeMap<u32, BTreeSet<u32>>)
    ensures
        sets_of(res@) == units_of_workers(
            workers@,
            match wanted {
                Some(set) => set@,
                None => Set::full(),
            },
        ),
{
    let ghost ids = match wanted {
        Some(set) => set@,
        None => Set::full(),
    };
    let mut res: BTreeMap<u32, BTreeSet<u32>> = BTreeMap::new();
    let mut i: usize = 0;
    assert(workers@.take(0) =~= Seq::<WorkerNode>::empty());
    assert(sets_of(res@) =~= Map::<u32, Set<u32>>::empty());
    while i < workers.len()
        invariant
            i <= workers.len(),
            ids == (match wanted {
                Some(set) => set@,
                None => Set::full(),
            }),
            sets_of(res@) == units_of_workers(workers@.take(i as int), ids),
        decreases workers.len() - i,
    {
        let worker = &workers[i];
        let ghost res0 = res@;
        let take: bool = match wanted {
            Some(set) => set.contains(&worker.id),
            None => true,
        };
        if take {
            let set = collect_unit_ids(&worker.parallel_units);
            res.insert(worker.id, set);
            assert(sets_of(res@) =~= sets_of(res0).insert(
                worker.id,
                unit_ids(worker.parallel_units@),
            ));
        }
        assert(workers@.take(i + 1).drop_last() =~= workers@.take(i as int));
        i = i + 1;
    }
    assert(workers@.take(i as int) =~= workers@);
    res
}

/// The workers on which no new actor is to be placed.
pub open spec fn unschedulable_workers(workers: Seq<WorkerNode>) -> Set<u32>
    decreases workers.len(),
{
    if workers.len() == 0 {
        Set::empty()
    } else if is_unschedulable(workers.last().property) {
        unschedulable_workers(workers.drop_last()).insert(workers.last().id)
    } else {
        unschedulable_workers(workers.drop_last())
    }
}

/// The workers on which no new actor is to be placed.
pub fn filter_unschedulable_workers(workers: &Vec<WorkerNode>) -> (res: BTreeSet<u32>)
    ensures
        res@ == unschedulable_workers(workers@),
{
    let mut res: BTreeSet<u32> = BTreeSet::new();
    let mut i: usize = 0;
    assert(workers@.take(0) =~= Seq::<WorkerNode>::empty());
    while i < workers.len()
        invariant
            i <= workers.len(),
            res@ == unschedulable_workers(workers@.take(i as int)),
        decreases workers.len() - i,
    {
        if workers[i].unschedulable() {
            res.insert(workers[i].id);
        }
        assert(workers@.take(i + 1).drop_last() =~= workers@.take(i as int));
        i = i + 1;
    }
    assert(workers@.take(i as int) =~= workers@);
    res
}

/// The points on the ring of the given workers.
pub open spec fn slot_ring(ids: Seq<u32>, salt: u32) -> Map<u64, u32>
    decreases ids.len(),
{
    if ids.len() == 0 {
        Map::empty()
    } else {
        add_points(slot_ring(ids.drop_last(), salt), salt, ids.last(), VIRTUAL_NODES as nat)
    }
}

/// How many parallel units each worker has.
pub open spec fn slot_capacities(slots: Map<u32, Set<u32>>) -> Map<u32, u32> {
    Map::new(|w: u32| slots.contains_key(w), |w: u32| slots[w].len() as u32)
}

/// No worker has, and all workers together do not have, more parallel units than can be counted.
pub open spec fn slots_countable(slots: Map<u32, Set<u32>>) -> bool {
    &&& forall|w: u32| #[trigger] slots.contains_key(w) ==> slots[w].len() <= u32::MAX
    &&& total_capacity(slot_capacities(slots)) <= u32::MAX
}

/// Which parallel units of each worker are used when `total` are needed.
pub open spec fn scheduled(slots: Map<u32, Set<u32>>, total: int, salt: u32) -> Result<
    Map<u32, Set<u32>>,
    ScaleError,
> {
    match distribution_on(
        slot_ring(ascending_of(slots.dom()), salt),
        slot_capacities(slots),
        salt,
        total as u32,
        fair_shares(slot_capacities(slots), total),
    ) {
        Ok(dist) => Ok(
            Map::new(
                |w: u32| slots.contains_key(w),
                |w: u32| first_n(slots[w], count_of(dist, w) as int),
            ),
        ),
        Err(e) => Err(e),
    }
}

/// Picks parallel units of the workers, each of which gives its first ones, as many as the
/// consistent hash ring assigns to it.
pub fn schedule_units_for_slots(
    slots: &BTreeMap<u32, BTreeSet<u32>>,
    total_unit_size: usize,
    salt: u32,
) -> (res: Result<BTreeMap<u32, BTreeSet<u32>>, ScaleError>)
    requires
        slots_countable(sets_of(slots@)),
        total_unit_size <= u32::MAX,
    ensures
        match res {
            Ok(m) => scheduled(sets_of(slots@), total_unit_size as int, salt) == Ok::<
                Map<u32, Set<u32>>,
                ScaleError,
            >(sets_of(m@)),
            Err(e) => scheduled(sets_of(slots@), total_unit_size as int, salt) == Err::<
                Map<u32, Set<u32>>,
                ScaleError,
            >(e),
        },
{
    let ids = map_keys(slots);
    let ghost sets = sets_of(slots@);
    let ghost caps = slot_capacities(sets);
    assert(sets.dom() =~= slots@.dom());
    assert(caps.dom() =~= slots@.dom());
    let mut ch = ConsistentHashRing::new(salt);
    let mut i: usize = 0;
    assert(ids@.take(0) =~= Seq::<u32>::empty());
    assert(ch.spec_capacities() =~= caps.restrict(ids@.take(0).to_set()));
    while i < ids.len()
        invariant
            i <= ids.len(),
            ids@.to_set() == slots@.dom(),
            sets == sets_of(slots@),
            caps == slot_capacities(sets),
            slots_countable(sets),
            ch.wf(),
            ch.spec_salt() == salt,
            ch.spec_ring() == slot_ring(ids@.take(i as int), salt),
            ch.spec_capacities() == caps.restrict(ids@.take(i as int).to_set()),
        decreases ids.len() - i,
    {
        let id: u32 = ids[i];
        assert(ids@.to_set().contains(ids@[i as int]));
        assert(sets.contains_key(id));
        let units = slots.get(&id).unwrap();
        ch.add_worker(id, units.len() as u32);
        proof {
            assert(ids@.take(i + 1).drop_last() =~= ids@.take(i as int));
            assert(ids@.take(i + 1) =~= ids@.take(i as int).push(id));
            lemma_to_set_push(ids@.take(i as int), id);
            assert(ch.spec_capacities() =~= caps.restrict(ids@.take(i + 1).to_set()));
        }
        i = i + 1;
    }
    assert(ids@.take(i as int) =~= ids@);
    assert(ch.spec_capacities() =~= caps);
    let dist = match ch.distribute_tasks(total_unit_size as u32) {
        Ok(dist) => dist,
        Err(e) => {
            return Err(e);
        },
    };
    let mut res: BTreeMap<u32, BTreeSet<u32>> = BTreeMap::new();
    let ghost picked = Map::new(
        |w: u32| sets.contains_key(w),
        |w: u32| first_n(sets[w], count_of(dist@, w) as int),
    );
    let mut i: usize = 0;
    assert(sets_of(res@) =~= picked.restrict(ids@.take(0).to_set()));
    while i < ids.len()
        invariant
            i <= ids.len(),
            ids@.to_set() == slots@.dom(),
            sets == sets_of(slots@),
            picked == Map::new(
                |w: u32| sets.contains_key(w),
                |w: u32| first_n(sets[w], count_of(dist@, w) as int),
            ),
            sets_of(res@) == picked.restrict(ids@.take(i as int).to_set()),
        decreases ids.len() - i,
    {
        let id: u32 = ids[i];
        assert(ids@.to_set().contains(ids@[i as int]));
        let units = slots.get(&id).unwrap();
        let count: u32 = match dist.get(&id) {
            Some(count) => *count,
            None => 0,
        };
        let ghost res0 = res@;
        let set = take_first(units, count as usize);
        assert(set@ == picked[id]);
        res.insert(id, set);
        proof {
            assert(sets_of(res@) =~= sets_of(res0).insert(id, picked[id]));
            assert(ids@.take(i + 1) =~= ids@.take(i as int).push(id));
            lemma_to_set_push(ids@.take(i as int), id);
            assert(sets_of(res@) =~= picked.restrict(ids@.take(i + 1).to_set()));
        }
        i = i + 1;
    }
    assert(ids@.take(i as int) =~= ids@);
    assert(sets_of(res@) =~= picked);
    Ok(res)
}

} // verus!
