//! What fragments come to when they are resized: how many parallel units they are on, and which.
use crate::common::collections::{ascending_of, lemma_ascending_exists};
use crate::scale::alignment::units_after;
use crate::scale::checks::current_units;
use crate::scale::model::{ActorStatus, CustomFragmentInfo, FragmentDistributionType};
use crate::scale::model::{TableParallelism, UnitChange};
use crate::scale::resize::{capped, fragment_resize};
use crate::scale::ring::{add_points, assigned_sum, capacity_sum, count_of, distribution_on};
use crate::scale::ring::{fair_shares, is_ring_of, lemma_distribution_succeeds};
use crate::scale::ring::{lemma_distribution_total, ring_order, task_limits, total_capacity};
use crate::scale::ring::{workers_on_ring, VIRTUAL_NODES};
use crate::scale::stable::{limited_units, stable_hash, units_of_all, WorkerChange};
use crate::scale::units::{all_units, first_n, lemma_unit_diff, scheduled, slot_capacities};
use crate::scale::units::{slot_ring, slots_countable};
use vstd::prelude::*;

verus! {

/// The workers have finitely many parallel units, which can be counted, and share none.
pub open spec fn slots_apart(slots: Map<u32, Set<u32>>) -> bool {
    &&& slots.dom().finite()
    &&& slots_countable(slots)
    &&& forall|w: u32| #[trigger] slots.contains_key(w) ==> slots[w].finite()
    &&& forall|v: u32, w: u32|
        #![trigger slots[v], slots[w]]
        slots.contains_key(v) && slots.contains_key(w) && v != w ==> slots[v].disjoint(slots[w])
}

/// The elements of the sets of the given workers.
spec fn union_of(ids: Seq<u32>, sets: Map<u32, Set<u32>>) -> Set<u32>
    decreases ids.len(),
{
    if ids.len() == 0 {
        Set::empty()
    } else {
        union_of(ids.drop_last(), sets).union(sets[ids.last()])
    }
}

/// The first elements of a set are among its elements, and as many as asked for where there are
/// that many.
pub proof fn lemma_first_n(set: Set<u32>, n: int)
    requires
        set.finite(),
        0 <= n,
    ensures
        first_n(set, n).subset_of(set),
        first_n(set, n).finite(),
        first_n(set, n).len() == (if n <= set.len() {
            n
        } else {
            set.len() as int
        }),
{
    let s = ascending_of(set);
    lemma_ascending_exists(set);
    let m = if n <= s.len() {
        n
    } else {
        s.len() as int
    };
    let t = s.take(m);
    assert(t.no_duplicates());
    t.unique_seq_to_set();
    assert forall|x: u32| #[trigger] t.to_set().contains(x) implies set.contains(x) by {
        let i = t.index_of(x);
        assert(s[i] == x);
        assert(s.to_set().contains(x));
    }
}

/// The sets of different workers add up.
proof fn lemma_union_len(ids: Seq<u32>, sets: Map<u32, Set<u32>>, counts: Map<u32, u32>)
    requires
        ids.no_duplicates(),
        forall|i: int|
            0 <= i < ids.len() ==> sets[#[trigger] ids[i]].finite() && sets[ids[i]].len()
                == count_of(counts, ids[i]),
        forall|i: int, j: int|
            #![trigger ids[i], ids[j]]
            0 <= i < j < ids.len() ==> sets[ids[i]].disjoint(sets[ids[j]]),
    ensures
        union_of(ids, sets).finite(),
        union_of(ids, sets).len() == assigned_sum(ids, counts),
        forall|x: u32| #[trigger]
            union_of(ids, sets).contains(x) <==> exists|i: int|
                0 <= i < ids.len() && sets[#[trigger] ids[i]].contains(x),
    decreases ids.len(),
{
    if ids.len() > 0 {
        let init = ids.drop_last();
        let last = ids.len() - 1;
        assert(ids[last] == ids.last());
        assert forall|i: int| 0 <= i < init.len() implies sets[#[trigger] init[i]].finite()
            && sets[init[i]].len() == count_of(counts, init[i]) by {
            assert(init[i] == ids[i]);
        }
        assert forall|i: int, j: int|
            #![trigger init[i], init[j]]
            0 <= i < j < init.len() implies sets[init[i]].disjoint(sets[init[j]]) by {
            assert(init[i] == ids[i] && init[j] == ids[j]);
        }
        lemma_union_len(init, sets, counts);
        let before = union_of(init, sets);
        let own = sets[ids.last()];
        assert(before.disjoint(own)) by {
            assert forall|x: u32| before.contains(x) implies !own.contains(x) by {
                let i = choose|i: int| 0 <= i < init.len() && sets[#[trigger] init[i]].contains(x);
                assert(init[i] == ids[i]);
                assert(sets[ids[i]].disjoint(sets[ids[last]]));
            }
        }
        vstd::set_lib::lemma_set_disjoint_lens(before, own);
        assert(before + own =~= before.union(own));
        assert forall|x: u32| #[trigger] union_of(ids, sets).contains(x) <==> exists|i: int|
            0 <= i < ids.len() && sets[#[trigger] ids[i]].contains(x) by {
            if before.contains(x) {
                let i = choose|i: int| 0 <= i < init.len() && sets[#[trigger] init[i]].contains(x);
                assert(sets[ids[i]].contains(x));
            }
            if own.contains(x) {
                assert(sets[ids[last]].contains(x));
            }
            if exists|i: int| 0 <= i < ids.len() && sets[#[trigger] ids[i]].contains(x) {
                let i = choose|i: int| 0 <= i < ids.len() && sets[#[trigger] ids[i]].contains(x);
                if i < last {
                    assert(sets[init[i]].contains(x));
                }
            }
        }
    }
}

/// The sets of all workers add up.
proof fn lemma_all_units_len(sets: Map<u32, Set<u32>>, counts: Map<u32, u32>)
    requires
        sets.dom().finite(),
        forall|w: u32| #[trigger]
            sets.contains_key(w) ==> sets[w].finite() && sets[w].len() == count_of(counts, w),
        forall|v: u32, w: u32|
            #![trigger sets[v], sets[w]]
            sets.contains_key(v) && sets.contains_key(w) && v != w ==> sets[v].disjoint(sets[w]),
    ensures
        all_units(sets).finite(),
        all_units(sets).len() == assigned_sum(ascending_of(sets.dom()), counts),
{
    let ids = ascending_of(sets.dom());
    lemma_ascending_exists(sets.dom());
    assert(ids.no_duplicates());
    assert forall|i: int| 0 <= i < ids.len() implies sets.contains_key(#[trigger] ids[i]) by {
        assert(ids.to_set().contains(ids[i]));
    }
    lemma_union_len(ids, sets, counts);
    assert forall|x: u32| union_of(ids, sets).contains(x) <==> all_units(sets).contains(x) by {
        if union_of(ids, sets).contains(x) {
            let i = choose|i: int| 0 <= i < ids.len() && sets[#[trigger] ids[i]].contains(x);
            assert(sets.contains_key(ids[i]) && sets[ids[i]].contains(x));
        }
        if all_units(sets).contains(x) {
            let w = choose|w: u32| sets.contains_key(w) && #[trigger] sets[w].contains(x);
            assert(ids.to_set().contains(w));
            let i = ids.index_of(w);
            assert(sets[ids[i]].contains(x));
        }
    }
    assert(union_of(ids, sets) =~= all_units(sets));
}

/// What has been counted of all workers is what they have.
proof fn lemma_assigned_all(ids: Seq<u32>, capacities: Map<u32, u32>)
    requires
        forall|i: int| 0 <= i < ids.len() ==> capacities.contains_key(#[trigger] ids[i]),
    ensures
        assigned_sum(ids, capacities) == capacity_sum(ids, capacities),
    decreases ids.len(),
{
    if ids.len() > 0 {
        let init = ids.drop_last();
        assert(capacities.contains_key(ids[ids.len() - 1]));
        assert forall|i: int| 0 <= i < init.len() implies capacities.contains_key(
            #[trigger] init[i],
        ) by {
            assert(init[i] == ids[i]);
        }
        lemma_assigned_all(init, capacities);
    }
}

/// The parallel units of all workers are as many as the capacities say.
pub proof fn lemma_available(slots: Map<u32, Set<u32>>)
    requires
        slots_apart(slots),
    ensures
        all_units(slots).finite(),
        all_units(slots).len() == total_capacity(slot_capacities(slots)),
{
    let caps = slot_capacities(slots);
    assert(caps.dom() =~= slots.dom());
    let ids = ascending_of(slots.dom());
    lemma_ascending_exists(slots.dom());
    assert forall|i: int| 0 <= i < ids.len() implies caps.contains_key(#[trigger] ids[i]) by {
        assert(ids.to_set().contains(ids[i]));
    }
    lemma_all_units_len(slots, caps);
    lemma_assigned_all(ids, caps);
}

/// The points of a worker belong to it.
proof fn lemma_add_points(ring: Map<u64, u32>, salt: u32, id: u32, n: nat)
    requires
        ring.dom().finite(),
    ensures
        add_points(ring, salt, id, n).dom().finite(),
        forall|h: u64| #[trigger]
            add_points(ring, salt, id, n).contains_key(h) ==> add_points(ring, salt, id, n)[h] == id
                || (ring.contains_key(h) && add_points(ring, salt, id, n)[h] == ring[h]),
    decreases n,
{
    if n > 0 {
        lemma_add_points(ring, salt, id, (n - 1) as nat);
    }
}

/// The points of a ring of workers belong to the workers.
proof fn lemma_slot_ring(ids: Seq<u32>, salt: u32)
    ensures
        slot_ring(ids, salt).dom().finite(),
        forall|h: u64| #[trigger]
            slot_ring(ids, salt).contains_key(h) ==> ids.contains(slot_ring(ids, salt)[h]),
    decreases ids.len(),
{
    if ids.len() > 0 {
        let init = ids.drop_last();
        lemma_slot_ring(init, salt);
        lemma_add_points(slot_ring(init, salt), salt, ids.last(), VIRTUAL_NODES as nat);
        assert(ids[ids.len() - 1] == ids.last());
        assert forall|h: u64| #[trigger] slot_ring(ids, salt).contains_key(h) implies ids.contains(
            slot_ring(ids, salt)[h],
        ) by {
            let w = slot_ring(ids, salt)[h];
            if w != ids.last() {
                let i = init.index_of(w);
                assert(ids[i] == init[i]);
            }
        }
    }
}

/// The ring of the workers is one of theirs.
proof fn lemma_ring_of_slots(slots: Map<u32, Set<u32>>, salt: u32)
    requires
        slots.dom().finite(),
    ensures
        is_ring_of(slot_ring(ascending_of(slots.dom()), salt), slot_capacities(slots)),
{
    let ids = ascending_of(slots.dom());
    lemma_ascending_exists(slots.dom());
    lemma_slot_ring(ids, salt);
    let caps = slot_capacities(slots);
    assert(caps.dom() =~= slots.dom());
    let ring = slot_ring(ids, salt);
    assert forall|h: u64| #[trigger] ring.contains_key(h) implies caps.contains_key(ring[h]) by {
        assert(ids.to_set().contains(ring[h]));
    }
}

/// Exactly as many parallel units are picked as are needed, each of them one of its worker's.
pub proof fn lemma_scheduled(slots: Map<u32, Set<u32>>, total: int, salt: u32)
    requires
        slots_apart(slots),
        0 <= total <= u32::MAX,
    ensures
        scheduled(slots, total, salt) matches Ok(picked) ==> picked.dom() == slots.dom() && (
        forall|w: u32| #[trigger] picked.contains_key(w) ==> picked[w].subset_of(slots[w]))
            && all_units(picked).finite() && all_units(picked).len() == total && all_units(
            picked,
        ).subset_of(all_units(slots)),
{
    if let Ok(picked) = scheduled(slots, total, salt) {
        let caps = slot_capacities(slots);
        let ring = slot_ring(ascending_of(slots.dom()), salt);
        let soft = fair_shares(caps, total);
        assert(caps.dom() =~= slots.dom());
        lemma_ring_of_slots(slots, salt);
        lemma_distribution_total(ring, caps, salt, total as u32, soft);
        let dist = distribution_on(ring, caps, salt, total as u32, soft)->Ok_0;
        assert(picked.dom() =~= slots.dom());
        assert forall|w: u32| #[trigger] picked.contains_key(w) implies picked[w].finite()
            && picked[w].len() == count_of(dist, w) && picked[w].subset_of(slots[w]) by {
            assert(slots.contains_key(w));
            lemma_first_n(slots[w], count_of(dist, w) as int);
            if dist.contains_key(w) {
                assert(dist[w] <= task_limits(caps, soft)[w]);
                assert(task_limits(caps, soft)[w] <= caps[w]);
            }
        }
        assert forall|v: u32, w: u32|
            #![trigger picked[v], picked[w]]
            picked.contains_key(v) && picked.contains_key(w) && v != w implies picked[v].disjoint(
            picked[w],
        ) by {
            assert(slots[v].disjoint(slots[w]));
            assert(picked[v].subset_of(slots[v]));
            assert(picked[w].subset_of(slots[w]));
        }
        lemma_all_units_len(picked, dist);
        assert forall|x: u32| #[trigger] all_units(picked).contains(x) implies all_units(
            slots,
        ).contains(x) by {
            let w = choose|w: u32| picked.contains_key(w) && #[trigger] picked[w].contains(x);
            assert(picked[w].subset_of(slots[w]));
            assert(slots.contains_key(w) && slots[w].contains(x));
        }
    }
}

/// Where every worker has a point on the ring, as many parallel units as there are can be picked.
pub proof fn lemma_scheduling_succeeds(slots: Map<u32, Set<u32>>, total: int, salt: u32)
    requires
        slots_apart(slots),
        0 <= total <= all_units(slots).len(),
        workers_on_ring(
            ring_order(slot_ring(ascending_of(slots.dom()), salt)),
            slot_capacities(slots),
        ),
    ensures
        scheduled(slots, total, salt) is Ok,
{
    let caps = slot_capacities(slots);
    let ring = slot_ring(ascending_of(slots.dom()), salt);
    lemma_available(slots);
    lemma_ring_of_slots(slots, salt);
    lemma_distribution_succeeds(ring, caps, salt, total as u32);
}

/// A resized fragment is on available parallel units only. Of an adaptive table it is on all of
/// them, of a table of fixed parallelism on that many, or on all where there are fewer. A fragment
/// with one actor stays or moves to one of them, and a table whose parallelism was set by hand is
/// left alone.
pub proof fn lemma_resized(
    table_id: u32,
    fragment_id: u32,
    fragment: &CustomFragmentInfo,
    statuses: Map<u32, ActorStatus>,
    slots: Map<u32, Set<u32>>,
    parallelism: TableParallelism,
)
    requires
        slots_apart(slots),
        fragment_resize(table_id, fragment_id, fragment, statuses, slots, parallelism) is Ok,
    ensures
        ({
            let available = all_units(slots);
            let current = current_units(fragment, statuses);
            let after = match fragment_resize(
                table_id,
                fragment_id,
                fragment,
                statuses,
                slots,
                parallelism,
            )->Ok_0 {
                Some(change) => units_after(current, change),
                None => current,
            };
            if fragment.distribution_type == FragmentDistributionType::Single {
                after.subset_of(available) && (current.len() == 1 ==> after.len() == 1)
            } else {
                match parallelism {
                    TableParallelism::Adaptive => after == available,
                    TableParallelism::Fixed(n) => after.subset_of(available) && after.len() == (if n
                        <= available.len() {
                        n as nat
                    } else {
                        available.len()
                    }),
                    TableParallelism::Custom => after == current,
                }
            }
        }),
{
    let available = all_units(slots);
    let current = current_units(fragment, statuses);
    lemma_available(slots);
    lemma_unit_diff(current, available);
    if fragment.distribution_type == FragmentDistributionType::Single {
        lemma_scheduled(slots, 1, table_id);
        if let Ok(picked) = scheduled(slots, 1, table_id) {
            let change = UnitChange { added: all_units(picked), removed: current };
            assert(units_after(current, change) =~= all_units(picked));
        }
    } else if let TableParallelism::Fixed(n) = parallelism {
        let total = capped(n as int, available.len() as int);
        lemma_scheduled(slots, total, table_id);
        if let Ok(picked) = scheduled(slots, total, table_id) {
            lemma_unit_diff(current, all_units(picked));
        }
    }
}

/// A hash-distributed fragment that gains and loses workers is afterwards on no parallel unit of a
/// worker that it loses, and where its parallelism is given, on that many.
pub proof fn lemma_stable_resized(
    fragment_id: u32,
    change: WorkerChange,
    current: Set<u32>,
    units: Map<u32, Set<u32>>,
    hints: Map<u32, Set<u32>>,
)
    requires
        current.finite(),
        units_of_all(units, hints, change.gained).finite(),
        units_of_all(units, hints, change.gained).disjoint(
            units_of_all(units, hints, change.lost),
        ),
        forall|w: u32| #[trigger]
            change.gained.contains(w) ==> units.contains_key(w) && units[w].finite(),
        stable_hash(fragment_id, change, current, units, hints) is Ok,
    ensures
        ({
            let asked = stable_hash(fragment_id, change, current, units, hints)->Ok_0;
            &&& asked is Some
            &&& units_after(current, asked->Some_0).disjoint(
                units_of_all(units, hints, change.lost),
            )
            &&& change.target matches Some(n) ==> units_after(current, asked->Some_0).len() == n
        }),
{
    let gained = units_of_all(units, hints, change.gained);
    let lost = units_of_all(units, hints, change.lost);
    let target = current.union(gained).difference(lost);
    let asked = stable_hash(fragment_id, change, current, units, hints)->Ok_0;
    match (change.target, change.per_worker) {
        (Some(n), None) => {
            lemma_first_n(target, n as int);
            lemma_unit_diff(current, first_n(target, n as int));
        },
        (None, Some(k)) => {
            let kept = target.difference(gained);
            let few = limited_units(units, change.gained, k as int);
            lemma_unit_diff(current, kept.union(few));
            assert forall|u: u32| few.contains(u) implies gained.contains(u) by {
                let w = choose|w: u32|
                    change.gained.contains(w) && #[trigger] first_n(units[w], k as int).contains(u);
                lemma_first_n(units[w], k as int);
                assert(units[w].contains(u));
                assert(crate::scale::stable::units_of(units, hints, w).contains(u));
            }
        },
        _ => {
            lemma_unit_diff(current, target);
        },
    }
}

} // verus!
