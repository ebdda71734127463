//! Where workers stand on the ring, and which worker a task comes to.
use crate::scale::model::ScaleError;
use crate::scale::ring::{
    add_points, asked, assign, count_of, distribute, hash_of, lemma_ring_has_order, ring_order,
    start_of, task_hashes, task_limits, ConsistentHashRing, VIRTUAL_NODES,
};
use std::collections::BTreeMap;
use vstd::prelude::*;

verus! {

broadcast use {vstd::std_specs::btree::group_btree_axioms, vstd::laws_cmp::group_laws_cmp};

/// A place of the worker on the ring.
pub open spec fn place_of(salt: u32, id: u32, k: u32) -> u64 {
    hash_of(seq![salt, id, k])
}

/// The place on the ring is one of the first places of the worker.
pub open spec fn is_place(salt: u32, id: u32, n: nat, h: u64) -> bool {
    exists|k: u32| k < n && h == #[trigger] place_of(salt, id, k)
}

proof fn lemma_points_added(ring: Map<u64, u32>, salt: u32, id: u32, n: nat, h: u64)
    requires
        n <= u32::MAX,
    ensures
        is_place(salt, id, n, h) ==> add_points(ring, salt, id, n).contains_key(h) && add_points(
            ring,
            salt,
            id,
            n,
        )[h] == id,
        !is_place(salt, id, n, h) ==> (add_points(ring, salt, id, n).contains_key(h)
            <==> ring.contains_key(h)) && (ring.contains_key(h) ==> add_points(ring, salt, id, n)[h]
            == ring[h]),
    decreases n,
{
    if n > 0 {
        let m = (n - 1) as nat;
        lemma_points_added(ring, salt, id, m, h);
        let last = hash_of(seq![salt, id, m as u32]);
        if is_place(salt, id, m, h) {
            let k = choose|k: u32| k < m && h == #[trigger] place_of(salt, id, k);
            assert(is_place(salt, id, n, h));
        }
        if h == last {
            assert((m as u32) < n && h == place_of(salt, id, m as u32));
        }
        if is_place(salt, id, n, h) && !is_place(salt, id, m, h) {
            let k = choose|k: u32| k < n && h == #[trigger] place_of(salt, id, k);
            assert(k == m as u32);
        }
    }
}

/// A worker that is entered has its capacity, and all its places on the ring are its own; the other places stay with
/// whom they were.
pub proof fn lemma_worker_entered(ring: &mut ConsistentHashRing, id: u32, capacity: u32, h: u64, w: u32)
    requires
        call_ensures(ConsistentHashRing::add_worker, (ring, id, capacity), ()),
    ensures
        ({
            let before = old(ring).spec_ring();
            let after = final(ring).spec_ring();
            let mine = is_place(old(ring).spec_salt(), id, VIRTUAL_NODES as nat, h);
            &&& mine ==> after.contains_key(h) && after[h] == id
            &&& !mine ==> (after.contains_key(h) <==> before.contains_key(h)) && (before.contains_key(
                h,
            ) ==> after[h] == before[h])
            &&& final(ring).spec_capacities().contains_key(id)
            &&& final(ring).spec_capacities()[id] == capacity
            &&& w != id ==> (final(ring).spec_capacities().contains_key(w)
                <==> old(ring).spec_capacities().contains_key(w)) && (
            old(ring).spec_capacities().contains_key(w) ==> final(ring).spec_capacities()[w]
                == old(ring).spec_capacities()[w])
        }),
{
    lemma_points_added(
        old(ring).spec_ring(),
        old(ring).spec_salt(),
        id,
        VIRTUAL_NODES as nat,
        h,
    );
}

/// How far the place is from the hash, going along the ring upwards and round.
pub open spec fn way(h: u64, p: u64) -> int {
    if p >= h {
        p - h
    } else {
        p - h + u64::MAX + 1
    }
}

proof fn lemma_first_taker(order: Seq<u32>, limits: Map<u32, u32>, dist: Map<u32, u32>) -> (i: int)
    requires
        assign(order, limits, dist) is Some,
    ensures
        0 <= i < order.len(),
        count_of(dist, order[i]) < limits[order[i]],
        forall|j: int|
            0 <= j < i ==> count_of(dist, #[trigger] order[j]) >= limits[order[j]],
        count_of(assign(order, limits, dist)->Some_0, order[i]) == count_of(dist, order[i]) + 1,
        forall|x: u32|
            x != order[i] ==> #[trigger] count_of(assign(order, limits, dist)->Some_0, x) == count_of(
                dist,
                x,
            ),
    decreases order.len(),
{
    let w = order[0];
    let c = count_of(dist, w);
    if c < limits[w] {
        0
    } else {
        let rest = order.skip(1);
        let kept = dist.insert(w, c);
        assert(forall|x: u32| #[trigger] count_of(kept, x) == count_of(dist, x));
        let k = lemma_first_taker(rest, limits, kept);
        assert(rest[k] == order[k + 1]);
        assert forall|j: int| 0 <= j < k + 1 implies count_of(dist, #[trigger] order[j])
            >= limits[order[j]] by {
            if j > 0 {
                assert(rest[j - 1] == order[j]);
                assert(count_of(kept, rest[j - 1]) >= limits[rest[j - 1]]);
            }
        }
        k + 1
    }
}

proof fn lemma_start(points: Seq<(u64, u32)>, h: u64)
    requires
        forall|i: int, j: int|
            #![trigger points[i], points[j]]
            0 <= i < j < points.len() ==> points[i].0 < points[j].0,
    ensures
        0 <= start_of(points, h) <= points.len(),
        forall|i: int| 0 <= i < start_of(points, h) ==> (#[trigger] points[i]).0 < h,
        forall|i: int| start_of(points, h) <= i < points.len() ==> (#[trigger] points[i]).0 >= h,
    decreases points.len(),
{
    if points.len() > 0 {
        let n = points.len() - 1;
        if points.last().0 >= h {
            let rest = points.drop_last();
            assert forall|i: int, j: int|
                #![trigger rest[i], rest[j]]
                0 <= i < j < rest.len() implies rest[i].0 < rest[j].0 by {
                assert(rest[i] == points[i] && rest[j] == points[j]);
            }
            lemma_start(rest, h);
            assert forall|i: int| 0 <= i < start_of(points, h) implies (#[trigger] points[i]).0 < h by {
                assert(rest[i] == points[i]);
            }
            assert forall|i: int| start_of(points, h) <= i < points.len() implies (
            #[trigger] points[i]).0 >= h by {
                if i < n {
                    assert(rest[i] == points[i]);
                }
            }
        } else {
            assert(points[n].0 < h);
        }
    }
}

/// One task goes to the worker with room that comes first on the ring, from the place of the task on and round it,
/// and no other worker gets one. A worker has room if both its capacity and its limit let it have a task.
pub proof fn lemma_nearest_takes(
    ring: &ConsistentHashRing,
    soft: &BTreeMap<u32, u32>,
    res: Result<BTreeMap<u32, u32>, ScaleError>,
    h: u64,
)
    requires
        h == hash_of(seq![ring.spec_salt(), 0u32]),
        ring.wf(),
        ring.spec_ring().dom().finite(),
        call_ensures(ConsistentHashRing::distribute_tasks_within, (ring, 1u32, soft), res),
    ensures
        res matches Ok(dist) ==> exists|p: u64| #[trigger] takes(
            ring.spec_ring(),
            ring.spec_capacities(),
            soft@,
            h,
            dist@,
            p,
        ),
{
    match res {
        Ok(dist) => {
            let points = ring_order(ring.spec_ring());
            let limits = task_limits(ring.spec_capacities(), soft@);
            lemma_ring_has_order(ring.spec_ring());
            lemma_start(points, h);
            let m = start_of(points, h);
            assert(task_hashes(ring.spec_salt(), 0) =~= Seq::<u64>::empty());
            reveal_with_fuel(task_hashes, 2);
            let hashes = task_hashes(ring.spec_salt(), 1);
            assert(hashes =~= seq![h]);
            assert(hashes.drop_last() =~= Seq::<u64>::empty());
            reveal_with_fuel(distribute, 2);
            assert(distribute(hashes.drop_last(), points, limits) == Some(Map::<u32, u32>::empty()));
            let order = asked(points, h);
            let none = Map::<u32, u32>::empty();
            assert(assign(order, limits, none) == Some(dist@));
            let i = lemma_first_taker(order, limits, none);
            let n = points.len() - m;
            let at = if i < n {
                m + i
            } else {
                i - n
            };
            assert(order[i] == points[at].1);
            let p = points[at].0;
            ring.lemma_wf();
            assert(ring.spec_ring().contains_key(p) && ring.spec_ring()[p] == order[i]);
            assert(ring.spec_capacities().contains_key(order[i]));
            assert forall|q: u64| #[trigger]
                ring.spec_ring().contains_key(q) && has_room(
                    ring.spec_capacities(),
                    soft@,
                    ring.spec_ring()[q],
                ) implies way(h, p) <= way(h, q) by {
                let j = choose|j: int|
                    0 <= j < points.len() && #[trigger] points[j] == (q, ring.spec_ring()[q]);
                assert(ring.spec_capacities().contains_key(ring.spec_ring()[q]));
                let x = ring.spec_ring()[q];
                assert(limits[x] > 0);
                if j >= m {
                    assert(order[j - m] == x);
                    if i > j - m {
                        assert(count_of(none, order[j - m]) >= limits[order[j - m]]);
                    }
                    assert(i < n);
                    if m + i < j {
                        assert(points[m + i].0 < points[j].0);
                    }
                } else {
                    assert(order[n + j] == x);
                    if i > n + j {
                        assert(count_of(none, order[n + j]) >= limits[order[n + j]]);
                    }
                    assert(points[j].0 < h);
                    if i >= n && i - n < j {
                        assert(points[i - n].0 < points[j].0);
                    }
                }
            }
            assert(takes(ring.spec_ring(), ring.spec_capacities(), soft@, h, dist@, p)) by {
                assert forall|x: u32| x != ring.spec_ring()[p] implies !(#[trigger] dist@.contains_key(x))
                    || dist@[x] == 0 by {
                    assert(count_of(dist@, x) == count_of(none, x));
                }
                assert(count_of(dist@, order[i]) == 1);
            }
        },
        Err(_) => {},
    }
}

/// The worker may have a task.
pub open spec fn has_room(capacities: Map<u32, u32>, soft: Map<u32, u32>, w: u32) -> bool {
    capacities[w] > 0 && soft[w] > 0
}

/// The worker at the place has the one task, and among the workers with room none stands nearer to the hash.
pub open spec fn takes(
    ring: Map<u64, u32>,
    capacities: Map<u32, u32>,
    soft: Map<u32, u32>,
    h: u64,
    dist: Map<u32, u32>,
    p: u64,
) -> bool {
    &&& ring.contains_key(p) && has_room(capacities, soft, ring[p])
    &&& dist.contains_key(ring[p]) && dist[ring[p]] == 1
    &&& forall|q: u64| #[trigger]
        ring.contains_key(q) && has_room(capacities, soft, ring[q]) ==> way(h, p) <= way(h, q)
    &&& forall|x: u32| x != ring[p] ==> !(#[trigger] dist.contains_key(x)) || dist[x] == 0
}

} // verus!
