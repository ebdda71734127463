//! Tasks, parallel units and virtual nodes are shared fairly.
use crate::common::bitmap::{ones, Bitmap, VNODE_COUNT};
use crate::common::collections::{ascending_of, lemma_ascending_exists};
use crate::scale::arrange::{added_count, new_actor_count};
use crate::scale::model::{CustomActorInfo, ParallelUnitReschedule, ScaleError, UnitChange};
use crate::scale::no_shuffle::plans_of;
use crate::scale::rebalance::{bitmaps, can_rebalance, is_actor, rebalance_actor_vnode};
use crate::scale::ring::{
    assigned_sum, count_of, distribution_on, fair_share, fair_shares, lemma_distribution_total, task_limits, total_capacity,
    ConsistentHashRing,
};
use crate::scale::settle::owned;
use crate::scale::stable_laws::{are_smallest, lemma_first_are_smallest};
use crate::scale::units::{schedule_units_for_slots, sets_of, slot_capacities, slot_ring};
use std::collections::{BTreeMap, BTreeSet};
use vstd::prelude::*;

verus! {

broadcast use {vstd::std_specs::btree::group_btree_axioms, vstd::laws_cmp::group_laws_cmp};

proof fn lemma_below_one_more(total: int, capacity: int, sum: int)
    requires
        0 < sum,
        0 <= total <= sum,
        0 <= capacity <= u32::MAX,
    ensures
        0 <= fair_share(total, capacity, sum) <= capacity,
        fair_share(total, capacity, sum) * sum < total * capacity + sum,
{
    let x = total * capacity + sum - 1;
    let q = x / sum;
    assert(total * capacity >= 0) by (nonlinear_arith)
        requires
            total >= 0,
            capacity >= 0,
    ;
    assert(total * capacity <= sum * capacity) by (nonlinear_arith)
        requires
            total <= sum,
            capacity >= 0,
    ;
    vstd::arithmetic::div_mod::lemma_fundamental_div_mod(x, sum);
    assert(x == sum * q + x % sum);
    assert(0 <= x % sum < sum) by {
        vstd::arithmetic::div_mod::lemma_mod_bound(x, sum);
    }
    assert(q * sum <= x) by (nonlinear_arith)
        requires
            x == sum * q + x % sum,
            0 <= x % sum,
    ;
    assert(0 <= q <= capacity) by (nonlinear_arith)
        requires
            q * sum <= sum * capacity + sum - 1,
            sum > 0,
            x == sum * q + x % sum,
            x >= 0,
            x % sum < sum,
    ;
}

/// All tasks are shared out among the workers of the ring. No worker gets more than its capacity, nor a whole task
/// more than its part of the tasks, which is that of its capacity in all capacities. Only more tasks than capacity
/// are refused for that reason.
pub proof fn lemma_tasks_shared(
    ring: &ConsistentHashRing,
    total: u32,
    res: Result<BTreeMap<u32, u32>, ScaleError>,
    w: u32,
)
    requires
        ring.wf(),
        total_capacity(ring.spec_capacities()) <= u32::MAX,
        call_ensures(ConsistentHashRing::distribute_tasks, (ring, total), res),
    ensures
        ({
            let capacities = ring.spec_capacities();
            let sum = total_capacity(capacities);
            &&& res matches Ok(dist) ==> {
                &&& assigned_sum(ascending_of(capacities.dom()), dist@) == total
                &&& dist@.contains_key(w) ==> capacities.contains_key(w) && dist@[w] <= capacities[w]
                    && (sum > 0 ==> dist@[w] * sum < total * capacities[w] + sum)
            }
            &&& (res matches Err(ScaleError::TasksExceedCapacity)) <==> sum < total
        }),
{
    let capacities = ring.spec_capacities();
    let sum = total_capacity(capacities);
    let soft = fair_shares(capacities, total as int);
    ring.lemma_wf();
    lemma_distribution_total(ring.spec_ring(), capacities, ring.spec_salt(), total, soft);
    match res {
        Ok(dist) => {
            if dist@.contains_key(w) {
                assert(task_limits(capacities, soft).contains_key(w));
                if sum > 0 {
                    lemma_below_one_more(total as int, capacities[w] as int, sum as int);
                    let share = fair_share(total as int, capacities[w] as int, sum as int);
                    assert(dist@[w] <= share);
                    assert(dist@[w] * sum <= share * sum) by (nonlinear_arith)
                        requires
                            dist@[w] <= share,
                            sum >= 0,
                    ;
                }
            }
        },
        Err(_) => {},
    }
}

/// The parallel units that are picked of a worker are among its own, and smaller than those that are not picked. No
/// worker is left out or added.
pub proof fn lemma_units_picked(
    slots: &BTreeMap<u32, BTreeSet<u32>>,
    total: usize,
    salt: u32,
    res: Result<BTreeMap<u32, BTreeSet<u32>>, ScaleError>,
    w: u32,
    u: u32,
    v: u32,
)
    requires
        call_ensures(schedule_units_for_slots, (slots, total, salt), res),
        slots@.contains_key(w) ==> slots@[w]@.finite(),
    ensures
        res matches Ok(picked) ==> {
            &&& picked@.contains_key(w) <==> slots@.contains_key(w)
            &&& picked@.contains_key(w) && picked@[w]@.contains(u) ==> slots@[w]@.contains(u)
            &&& picked@.contains_key(w) && picked@[w]@.contains(u) && slots@[w]@.contains(v)
                && !picked@[w]@.contains(v) ==> u < v
        },
{
    match res {
        Ok(picked) => {
            let sets = sets_of(slots@);
            assert(sets_of(picked@).contains_key(w) <==> picked@.contains_key(w));
            assert(sets.contains_key(w) <==> slots@.contains_key(w));
            if slots@.contains_key(w) {
                assert(sets_of(picked@)[w] == picked@[w]@);
                assert(exists|n: int| 0 <= n && are_smallest(picked@[w]@, slots@[w]@, n)) by {
                    let dist = distribution_on(
                        slot_ring(ascending_of(sets.dom()), salt),
                        slot_capacities(sets),
                        salt,
                        (total as int) as u32,
                        fair_shares(slot_capacities(sets), total as int),
                    )->Ok_0;
                    let n = count_of(dist, w) as int;
                    lemma_first_are_smallest(sets[w], n);
                    assert(are_smallest(picked@[w]@, slots@[w]@, n));
                }
            }
        },
        Err(_) => {},
    }
}

/// The places of the bits that are set.
pub open spec fn set_bits(bits: Seq<bool>) -> Set<int> {
    Set::new(|i: int| 0 <= i < bits.len() && bits[i])
}

proof fn lemma_ones(bits: Seq<bool>)
    ensures
        set_bits(bits).finite(),
        set_bits(bits).len() == ones(bits),
    decreases bits.len(),
{
    if bits.len() == 0 {
        assert(set_bits(bits) =~= Set::empty());
    } else {
        let rest = bits.drop_last();
        lemma_ones(rest);
        if bits.last() {
            assert(set_bits(bits) =~= set_bits(rest).insert(bits.len() - 1));
        } else {
            assert(set_bits(bits) =~= set_bits(rest));
        }
    }
}

/// A bitmap counts the bits that are set.
pub proof fn lemma_bits_counted(bitmap: &Bitmap, res: usize)
    requires
        call_ensures(Bitmap::count_ones, (bitmap,), res),
    ensures
        set_bits(bitmap@).finite() && set_bits(bitmap@).len() == res,
{
    lemma_ones(bitmap@);
}

/// After virtual nodes are spread anew exactly the actors that stay and those that are created have some, every
/// virtual node is with one of them and with no other, and none has more than one more than another.
pub proof fn lemma_vnodes_spread(
    actors: &Vec<CustomActorInfo>,
    removed: &BTreeSet<u32>,
    created: &BTreeSet<u32>,
    res: BTreeMap<u32, Bitmap>,
    a: u32,
    b: u32,
    k: int,
)
    requires
        call_ensures(rebalance_actor_vnode, (actors, removed, created), res),
        can_rebalance(actors@, removed@, created@),
        0 <= k < VNODE_COUNT,
    ensures
        res@.contains_key(a) <==> created@.contains(a) || (!removed@.contains(a) && exists|i: int|
            0 <= i < actors@.len() && (#[trigger] actors@[i]).actor_id == a),
        res@.contains_key(a) ==> res@[a]@.len() == VNODE_COUNT,
        exists|c: u32| res@.contains_key(c) && #[trigger] res@[c]@[k],
        res@.contains_key(a) && res@.contains_key(b) && a != b ==> !(res@[a]@[k] && res@[b]@[k]),
        res@.contains_key(a) && res@.contains_key(b) ==> set_bits(res@[a]@).len() <= set_bits(
            res@[b]@,
        ).len() + 1,
{
    let dist = bitmaps(res@);
    assert(dist.contains_key(a) <==> res@.contains_key(a));
    assert(dist.contains_key(b) <==> res@.contains_key(b));
    if is_actor(actors@, a) && !removed@.contains(a) || created@.contains(a) {
        assert(dist.contains_key(a));
    }
    assert(owned(dist, k));
    let c = choose|c: u32| dist.contains_key(c) && #[trigger] dist[c][k];
    assert(res@.contains_key(c) && res@[c]@[k]);
    if res@.contains_key(a) {
        assert(dist[a] == res@[a]@);
        lemma_ones(dist[a]);
    }
    if res@.contains_key(b) {
        assert(dist[b] == res@[b]@);
        lemma_ones(dist[b]);
    }
}

/// The fragments with the parallel units that they gain.
pub open spec fn gains(ids: Seq<u32>, plans: Map<u32, UnitChange>) -> Set<(u32, u32)> {
    Set::new(|p: (u32, u32)| ids.contains(p.0) && plans[p.0].added.contains(p.1))
}

proof fn lemma_gains(ids: Seq<u32>, plans: Map<u32, UnitChange>)
    requires
        ids.no_duplicates(),
        forall|i: int| 0 <= i < ids.len() ==> plans[#[trigger] ids[i]].added.finite(),
    ensures
        gains(ids, plans).finite(),
        gains(ids, plans).len() == added_count(ids, plans),
    decreases ids.len(),
{
    if ids.len() == 0 {
        assert(gains(ids, plans) =~= Set::empty());
    } else {
        let rest = ids.drop_last();
        let n = ids.len() - 1;
        let f = ids[n];
        assert forall|i: int| 0 <= i < rest.len() implies plans[#[trigger] rest[i]].added.finite() by {
            assert(rest[i] == ids[i]);
        }
        assert forall|i: int, j: int|
            0 <= i < rest.len() && 0 <= j < rest.len() && i != j implies rest[i] != rest[j] by {
            assert(rest[i] == ids[i] && rest[j] == ids[j]);
        }
        lemma_gains(rest, plans);
        let own = Set::new(|p: (u32, u32)| p.0 == f && plans[f].added.contains(p.1));
        let pair = |u: u32| (f, u);
        assert(plans[f].added.finite());
        assert(plans[f].added.map(pair) =~= own) by {
            assert forall|p: (u32, u32)| own.contains(p) implies plans[f].added.map(pair).contains(p) by {
                assert(pair(p.1) == p);
            }
        }
        vstd::set_lib::lemma_map_size(plans[f].added, own, pair);
        let before = gains(rest, plans);
        assert(!rest.contains(f)) by {
            if rest.contains(f) {
                let i = choose|i: int| 0 <= i < rest.len() && rest[i] == f;
                assert(ids[i] == ids[n]);
            }
        }
        assert(before.disjoint(own));
        vstd::set_lib::lemma_set_disjoint_lens(before, own);
        assert forall|g: u32| ids.contains(g) <==> rest.contains(g) || g == f by {
            if ids.contains(g) {
                let i = choose|i: int| 0 <= i < ids.len() && ids[i] == g;
                if i < n {
                    assert(rest[i] == g);
                }
            }
            if rest.contains(g) {
                let i = choose|i: int| 0 <= i < rest.len() && rest[i] == g;
                assert(ids[i] == g);
            }
            assert(ids[n] == f);
        }
        assert(gains(ids, plans) =~= before.union(own));
    }
}

/// The new actors are counted one for each fragment and parallel unit that it gains.
pub proof fn lemma_new_actors_counted(
    reschedule: &BTreeMap<u32, ParallelUnitReschedule>,
    res: Option<usize>,
    pairs: Set<(u32, u32)>,
)
    requires
        call_ensures(new_actor_count, (reschedule,), res),
        forall|f: u32| #[trigger] reschedule@.contains_key(f) ==> reschedule@[f]@.added.finite(),
        forall|f: u32, u: u32| #[trigger]
            pairs.contains((f, u)) <==> reschedule@.contains_key(f) && reschedule@[f]@.added.contains(u),
    ensures
        pairs.finite(),
        res is Some <==> pairs.len() <= usize::MAX,
        res matches Some(n) ==> n == pairs.len(),
{
    let plans = plans_of(reschedule@);
    let ids = ascending_of(reschedule@.dom());
    lemma_ascending_exists(reschedule@.dom());
    assert forall|i: int| 0 <= i < ids.len() implies plans[#[trigger] ids[i]].added.finite() by {
        assert(ids.to_set().contains(ids[i]));
        assert(reschedule@.contains_key(ids[i]));
    }
    lemma_gains(ids, plans);
    assert(pairs =~= gains(ids, plans)) by {
        assert forall|p: (u32, u32)| pairs.contains(p) <==> gains(ids, plans).contains(p) by {
            assert(p == (p.0, p.1));
            assert(ids.to_set().contains(p.0) <==> reschedule@.contains_key(p.0));
        }
    }
}

} // verus!
