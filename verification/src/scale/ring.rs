//! A consistent hash ring that spreads tasks over workers by capacity.
use crate::common::collections::{ascending, ascending_of, map_keys};
use crate::scale::model::ScaleError;
use std::collections::BTreeMap;
use std::hash::DefaultHasher;
use std::hash::Hasher;
use vstd::prelude::*;
use vstd::std_specs::cmp::OrdSpec;
use vstd::std_specs::hash::DefaultHasherAdditionalSpecFns;
use vstd::std_specs::iter::IteratorSpec;

verus! {

broadcast use {
    vstd::std_specs::btree::group_btree_axioms,
    vstd::laws_cmp::group_laws_cmp,
};

/// The bytes of a number, lowest first.
pub open spec fn le_bytes(x: u32) -> Seq<u8> {
    seq![
        (x & 0xff) as u8,
        ((x >> 8) & 0xff) as u8,
        ((x >> 16) & 0xff) as u8,
        ((x >> 24) & 0xff) as u8,
    ]
}

/// The hash of a sequence of numbers.
pub open spec fn hash_of(parts: Seq<u32>) -> u64 {
    DefaultHasher::spec_finish(parts.map_values(|x: u32| le_bytes(x)))
}

/// The hash of a sequence of numbers.
fn hash(parts: &Vec<u32>) -> (res: u64)
    ensures
        res == hash_of(parts@),
{
    let mut hasher = DefaultHasher::new();
    let mut i: usize = 0;
    let ghost all = parts@.map_values(|x: u32| le_bytes(x));
    assert(all.take(0) =~= Seq::<Seq<u8>>::empty());
    while i < parts.len()
        invariant
            i <= parts.len(),
            all == parts@.map_values(|x: u32| le_bytes(x)),
            hasher@ == all.take(i as int),
        decreases parts.len() - i,
    {
        let x: u32 = parts[i];
        let mut bytes: Vec<u8> = Vec::new();
        bytes.push((x & 0xff) as u8);
        bytes.push(((x >> 8) & 0xff) as u8);
        bytes.push(((x >> 16) & 0xff) as u8);
        bytes.push(((x >> 24) & 0xff) as u8);
        assert(bytes@ =~= le_bytes(x));
        hasher.write(bytes.as_slice());
        assert(all.take(i + 1) =~= all.take(i as int).push(le_bytes(x)));
        i = i + 1;
    }
    assert(all.take(i as int) =~= all);
    hasher.finish()
}

/// The points of the ring in ascending order.
pub open spec fn is_ring_order(ring: Map<u64, u32>, points: Seq<(u64, u32)>) -> bool {
    &&& forall|i: int, j: int|
        #![trigger points[i], points[j]]
        0 <= i < j < points.len() ==> points[i].0 < points[j].0
    &&& forall|i: int|
        0 <= i < points.len() ==> ring.contains_key((#[trigger] points[i]).0) && ring[points[i].0]
            == points[i].1
    &&& forall|h: u64| #[trigger]
        ring.contains_key(h) ==> exists|i: int|
            0 <= i < points.len() && #[trigger] points[i] == (h, ring[h])
}

/// The points of the ring in ascending order.
pub open spec fn ring_order(ring: Map<u64, u32>) -> Seq<(u64, u32)> {
    choose|points: Seq<(u64, u32)>| is_ring_order(ring, points)
}

/// The ring has only one order.
proof fn lemma_ring_order_unique(ring: Map<u64, u32>, a: Seq<(u64, u32)>, b: Seq<(u64, u32)>)
    requires
        is_ring_order(ring, a),
        is_ring_order(ring, b),
    ensures
        a == b,
    decreases a.len(),
{
    if a.len() == 0 {
        if b.len() > 0 {
            assert(ring.contains_key(b[0].0));
        }
        assert(a =~= b);
    } else {
        let x = a.last();
        assert(a[a.len() - 1] == x);
        assert(ring.contains_key(x.0));
        let i = choose|i: int| 0 <= i < b.len() && #[trigger] b[i] == (x.0, ring[x.0]);
        let y = b.last();
        assert(b[b.len() - 1] == y);
        assert(ring.contains_key(y.0));
        let j = choose|j: int| 0 <= j < a.len() && #[trigger] a[j] == (y.0, ring[y.0]);
        assert(x == y);
        let r0 = ring.remove(x.0);
        let a0 = a.drop_last();
        let b0 = b.drop_last();
        assert forall|h: u64| #[trigger] r0.contains_key(h) implies (exists|i: int|
            0 <= i < a0.len() && #[trigger] a0[i] == (h, r0[h])) && (exists|i: int|
            0 <= i < b0.len() && #[trigger] b0[i] == (h, r0[h])) by {
            assert(ring.contains_key(h));
            let p = choose|i: int| 0 <= i < a.len() && #[trigger] a[i] == (h, ring[h]);
            assert(a0[p] == (h, r0[h]));
            let q = choose|i: int| 0 <= i < b.len() && #[trigger] b[i] == (h, ring[h]);
            assert(b0[q] == (h, r0[h]));
        }
        assert forall|i: int| 0 <= i < a0.len() implies r0.contains_key((#[trigger] a0[i]).0)
            && r0[a0[i].0] == a0[i].1 by {
            assert(a0[i] == a[i]);
        }
        assert forall|i: int| 0 <= i < b0.len() implies r0.contains_key((#[trigger] b0[i]).0)
            && r0[b0[i].0] == b0[i].1 by {
            assert(b0[i] == b[i]);
        }
        lemma_ring_order_unique(r0, a0, b0);
        assert(a =~= a0.push(x));
        assert(b =~= b0.push(y));
    }
}

/// The place of a new point among those of a ring.
proof fn lemma_ring_place(points: Seq<(u64, u32)>, h: u64) -> (p: int)
    requires
        forall|i: int, j: int|
            #![trigger points[i], points[j]]
            0 <= i < j < points.len() ==> points[i].0 < points[j].0,
        forall|i: int| 0 <= i < points.len() ==> (#[trigger] points[i]).0 != h,
    ensures
        0 <= p <= points.len(),
        forall|i: int| 0 <= i < p ==> (#[trigger] points[i]).0 < h,
        forall|i: int| p <= i < points.len() ==> (#[trigger] points[i]).0 > h,
    decreases points.len(),
{
    if points.len() == 0 || points.last().0 < h {
        points.len() as int
    } else {
        let init = points.drop_last();
        assert forall|i: int| 0 <= i < init.len() implies (#[trigger] init[i]).0 != h by {
            assert(init[i] == points[i]);
        }
        let p = lemma_ring_place(init, h);
        assert(points[points.len() - 1] == points.last());
        assert(forall|i: int| 0 <= i < init.len() ==> init[i] == points[i]);
        p
    }
}

/// Every ring has an order.
pub proof fn lemma_ring_has_order(ring: Map<u64, u32>)
    requires
        ring.dom().finite(),
    ensures
        is_ring_order(ring, ring_order(ring)),
    decreases ring.dom().len(),
{
    if ring.dom().len() == 0 {
        assert(ring.dom() =~= Set::empty());
        assert forall|h: u64| #[trigger] ring.contains_key(h) implies false by {
            assert(ring.dom().contains(h));
        }
        assert(is_ring_order(ring, Seq::empty()));
    } else {
        let h = ring.dom().choose();
        let rest = ring.remove(h);
        assert(rest.dom() =~= ring.dom().remove(h));
        lemma_ring_has_order(rest);
        let t = ring_order(rest);
        assert forall|i: int| 0 <= i < t.len() implies (#[trigger] t[i]).0 != h by {
            assert(rest.contains_key(t[i].0));
        }
        let p = lemma_ring_place(t, h);
        let points = t.insert(p, (h, ring[h]));
        assert forall|k: u64| #[trigger] ring.contains_key(k) implies exists|i: int|
            0 <= i < points.len() && #[trigger] points[i] == (k, ring[k]) by {
            if k == h {
                assert(points[p] == (k, ring[k]));
            } else {
                assert(rest.contains_key(k));
                let i = choose|i: int| 0 <= i < t.len() && #[trigger] t[i] == (k, rest[k]);
                if i < p {
                    assert(points[i] == (k, ring[k]));
                } else {
                    assert(points[i + 1] == (k, ring[k]));
                }
            }
        }
        assert forall|i: int| 0 <= i < points.len() implies ring.contains_key(
            (#[trigger] points[i]).0,
        ) && ring[points[i].0] == points[i].1 by {
            if i < p {
                assert(points[i] == t[i]);
                assert(rest.contains_key(t[i].0));
            } else if i > p {
                assert(points[i] == t[i - 1]);
                assert(rest.contains_key(t[i - 1].0));
            }
        }
        assert forall|i: int, j: int|
            #![trigger points[i], points[j]]
            0 <= i < j < points.len() implies points[i].0 < points[j].0 by {
            if i < p {
                assert(points[i] == t[i]);
            }
            if i > p {
                assert(points[i] == t[i - 1]);
            }
            if j < p {
                assert(points[j] == t[j]);
            }
            if j > p {
                assert(points[j] == t[j - 1]);
            }
        }
        assert(is_ring_order(ring, points));
    }
}

/// An increasing walk over the ring is ascending.
proof fn lemma_increasing(s: Seq<(&u64, &u32)>)
    requires
        vstd::std_specs::btree::increasing_seq(s.map_values(|kv: (&u64, &u32)| *kv.0)),
    ensures
        forall|i: int, j: int|
            #![trigger s[i], s[j]]
            0 <= i < j < s.len() ==> *s[i].0 < *s[j].0,
{
    let keys = s.map_values(|kv: (&u64, &u32)| *kv.0);
    assert forall|i: int, j: int|
        #![trigger s[i], s[j]]
        0 <= i < j < s.len() implies *s[i].0 < *s[j].0 by {
        assert(keys[i].cmp_spec(&keys[j]) is Less);
    }
}

/// The points of the ring in ascending order.
fn ring_points(ring: &BTreeMap<u64, u32>) -> (res: Vec<(u64, u32)>)
    ensures
        res@ == ring_order(ring@),
        is_ring_order(ring@, res@),
{
    let mut res: Vec<(u64, u32)> = Vec::new();
    for kv in it: ring.iter()
        invariant
            res@ == it.seq().take(it.index()).map_values(|kv: (&u64, &u32)| (*kv.0, *kv.1)),
            it.seq() == ring.iter().remaining(),
    {
        let (k, v) = kv;
        res.push((*k, *v));
        assert(res@ =~= it.seq().take(it.index() + 1).map_values(
            |kv: (&u64, &u32)| (*kv.0, *kv.1),
        ));
    }
    proof {
        let all = ring.iter().remaining();
        assert(all.take(all.len() as int) =~= all);
        lemma_increasing(all);
        assert forall|h: u64| #[trigger] ring@.contains_key(h) implies exists|i: int|
            0 <= i < res@.len() && #[trigger] res@[i] == (h, ring@[h]) by {
            assert(all.contains((&h, &ring@[h])));
            let i = all.index_of((&h, &ring@[h]));
            assert(res@[i] == (h, ring@[h]));
        }
        assert forall|i: int| 0 <= i < res@.len() implies ring@.contains_key(
            (#[trigger] res@[i]).0,
        ) && ring@[res@[i].0] == res@[i].1 by {
            assert(ring@.contains_key(*all[i].0));
        }
        lemma_ring_order_unique(ring@, res@, ring_order(ring@));
    }
    res
}

/// A ring of hash points, each of which belongs to a worker, and the capacities of the workers.
#[derive(Debug)]
pub struct ConsistentHashRing {
    ring: BTreeMap<u64, u32>,
    capacities: BTreeMap<u32, u32>,
    virtual_nodes: u32,
    salt: u32,
}

/// The number of points that each worker has on the ring.
pub const VIRTUAL_NODES: u32 = 1024;

/// The ring with the first `n` points of a worker entered; a point that is taken changes hands.
pub open spec fn add_points(ring: Map<u64, u32>, salt: u32, id: u32, n: nat) -> Map<u64, u32>
    decreases n,
{
    if n == 0 {
        ring
    } else {
        add_points(ring, salt, id, (n - 1) as nat).insert(
            hash_of(seq![salt, id, (n - 1) as u32]),
            id,
        )
    }
}

/// The sum of the capacities of the given workers.
pub open spec fn capacity_sum(ids: Seq<u32>, capacities: Map<u32, u32>) -> nat
    decreases ids.len(),
{
    if ids.len() == 0 {
        0
    } else {
        capacity_sum(ids.drop_last(), capacities) + capacities[ids.last()] as nat
    }
}

/// The sum of all capacities.
pub open spec fn total_capacity(capacities: Map<u32, u32>) -> nat {
    capacity_sum(ascending_of(capacities.dom()), capacities)
}

/// The hashes in ascending order with one more put in its place.
pub open spec fn insert_sorted(s: Seq<u64>, x: u64) -> Seq<u64>
    decreases s.len(),
{
    if s.len() == 0 || s.last() <= x {
        s.push(x)
    } else {
        insert_sorted(s.drop_last(), x).push(s.last())
    }
}

/// The hashes of the first `n` tasks, in ascending order.
pub open spec fn task_hashes(salt: u32, n: nat) -> Seq<u64>
    decreases n,
{
    if n == 0 {
        Seq::empty()
    } else {
        insert_sorted(task_hashes(salt, (n - 1) as nat), hash_of(seq![salt, (n - 1) as u32]))
    }
}

/// The index of the first point at or behind the hash.
pub open spec fn start_of(points: Seq<(u64, u32)>, h: u64) -> int
    decreases points.len(),
{
    if points.len() == 0 || points.last().0 < h {
        points.len() as int
    } else {
        start_of(points.drop_last(), h)
    }
}

/// The workers in the order in which a task at the hash asks them: along the ring from the hash
/// on, and then round it once.
pub open spec fn asked(points: Seq<(u64, u32)>, h: u64) -> Seq<u32> {
    (points.skip(start_of(points, h)) + points).map_values(|p: (u64, u32)| p.1)
}

pub open spec fn count_of(dist: Map<u32, u32>, w: u32) -> u32 {
    if dist.contains_key(w) {
        dist[w]
    } else {
        0
    }
}

/// The distribution after one task: the first worker that has room takes it. A worker that was
/// asked is in the distribution from then on.
pub open spec fn assign(order: Seq<u32>, limits: Map<u32, u32>, dist: Map<u32, u32>) -> Option<
    Map<u32, u32>,
>
    decreases order.len(),
{
    if order.len() == 0 {
        None
    } else {
        let w = order[0];
        let c = count_of(dist, w);
        if c < limits[w] {
            Some(dist.insert(w, (c + 1) as u32))
        } else {
            assign(order.skip(1), limits, dist.insert(w, c))
        }
    }
}

/// The distribution after the tasks with the given hashes.
pub open spec fn distribute(
    hashes: Seq<u64>,
    points: Seq<(u64, u32)>,
    limits: Map<u32, u32>,
) -> Option<Map<u32, u32>>
    decreases hashes.len(),
{
    if hashes.len() == 0 {
        Some(Map::empty())
    } else {
        match distribute(hashes.drop_last(), points, limits) {
            Some(dist) => assign(asked(points, hashes.last()), limits, dist),
            None => None,
        }
    }
}

/// The fair share of a worker in the tasks, rounded up. The share is exact, a quotient of whole numbers: where
/// the tasks can be divided in the ratio of the capacities, they are. A share in floating point can lie a little
/// above a whole number, and would then let a worker have one task too many: of seventy tasks on ten equal
/// workers, eight instead of seven.
pub open spec fn fair_share(total: int, capacity: int, total_capacity: int) -> int {
    if total_capacity == 0 {
        0
    } else {
        (total * capacity + total_capacity - 1) / total_capacity
    }
}

/// The most tasks that each worker may get: its capacity, and no more than its soft limit.
pub open spec fn task_limits(capacities: Map<u32, u32>, soft: Map<u32, u32>) -> Map<u32, u32> {
    Map::new(
        |w: u32| capacities.contains_key(w),
        |w: u32|
            if capacities[w] <= soft[w] {
                capacities[w]
            } else {
                soft[w]
            },
    )
}

/// The fair shares of all workers.
pub open spec fn fair_shares(capacities: Map<u32, u32>, total: int) -> Map<u32, u32> {
    Map::new(
        |w: u32| capacities.contains_key(w),
        |w: u32|
            fair_share(total, capacities[w] as int, total_capacity(capacities) as int) as u32,
    )
}

/// How tasks are spread on a ring, given the capacities and the soft limits of the workers.
pub open spec fn distribution_on(
    ring: Map<u64, u32>,
    capacities: Map<u32, u32>,
    salt: u32,
    total_tasks: u32,
    soft: Map<u32, u32>,
) -> Result<Map<u32, u32>, ScaleError> {
    if total_capacity(capacities) < total_tasks {
        Err(ScaleError::TasksExceedCapacity)
    } else {
        match distribute(
            task_hashes(salt, total_tasks as nat),
            ring_order(ring),
            task_limits(capacities, soft),
        ) {
            Some(dist) => Ok(dist),
            None => Err(ScaleError::TasksNotDistributed),
        }
    }
}

impl ConsistentHashRing {
    pub closed spec fn spec_ring(&self) -> Map<u64, u32> {
        self.ring@
    }

    pub closed spec fn spec_capacities(&self) -> Map<u32, u32> {
        self.capacities@
    }

    pub closed spec fn spec_salt(&self) -> u32 {
        self.salt
    }

    /// Every point belongs to a worker with a known capacity.
    pub closed spec fn wf(&self) -> bool {
        &&& self.virtual_nodes == VIRTUAL_NODES
        &&& forall|h: u64| #[trigger]
            self.ring@.contains_key(h) ==> self.capacities@.contains_key(self.ring@[h])
    }

    /// What `distribute_tasks` makes of the tasks, given the soft limits of the workers.
    pub open spec fn distribution(&self, total_tasks: u32, soft: Map<u32, u32>) -> Result<
        Map<u32, u32>,
        ScaleError,
    > {
        distribution_on(
            self.spec_ring(),
            self.spec_capacities(),
            self.spec_salt(),
            total_tasks,
            soft,
        )
    }

    /// A ring without workers.
    pub fn new(salt: u32) -> (res: ConsistentHashRing)
        ensures
            res.wf(),
            res.spec_ring() == Map::<u64, u32>::empty(),
            res.spec_capacities() == Map::<u32, u32>::empty(),
            res.spec_salt() == salt,
    {
        ConsistentHashRing {
            ring: BTreeMap::new(),
            capacities: BTreeMap::new(),
            virtual_nodes: VIRTUAL_NODES,
            salt,
        }
    }

    /// Enters a worker and its points.
    pub fn add_worker(&mut self, id: u32, capacity: u32)
        requires
            old(self).wf(),
        ensures
            final(self).wf(),
            final(self).spec_salt() == old(self).spec_salt(),
            final(self).spec_capacities() == old(self).spec_capacities().insert(id, capacity),
            final(self).spec_ring() == add_points(
                old(self).spec_ring(),
                old(self).spec_salt(),
                id,
                VIRTUAL_NODES as nat,
            ),
    {
        self.capacities.insert(id, capacity);
        let mut i: u32 = 0;
        while i < self.virtual_nodes
            invariant
                i <= VIRTUAL_NODES,
                self.virtual_nodes == VIRTUAL_NODES,
                self.salt == old(self).salt,
                self.capacities@ == old(self).capacities@.insert(id, capacity),
                self.ring@ == add_points(old(self).ring@, old(self).salt, id, i as nat),
                forall|h: u64| #[trigger]
                    self.ring@.contains_key(h) ==> self.capacities@.contains_key(self.ring@[h]),
            decreases VIRTUAL_NODES - i,
        {
            let mut key: Vec<u32> = Vec::new();
            key.push(self.salt);
            key.push(id);
            key.push(i);
            assert(key@ =~= seq![self.salt, id, i]);
            let point: u64 = hash(&key);
            self.ring.insert(point, id);
            i = i + 1;
        }
    }

    /// Spreads the tasks over the workers, each of which gets at most its exact fair share, rounded up.
    pub fn distribute_tasks(&self, total_tasks: u32) -> (res: Result<
        BTreeMap<u32, u32>,
        ScaleError,
    >)
        requires
            self.wf(),
            total_capacity(self.spec_capacities()) <= u32::MAX,
        ensures
            match res {
                Ok(dist) => self.distribution(
                    total_tasks,
                    fair_shares(self.spec_capacities(), total_tasks as int),
                ) == Ok::<Map<u32, u32>, ScaleError>(dist@),
                Err(e) => self.distribution(
                    total_tasks,
                    fair_shares(self.spec_capacities(), total_tasks as int),
                ) == Err::<Map<u32, u32>, ScaleError>(e),
            },
    {
        let ids = map_keys(&self.capacities);
        let total_capacity: u32 = self.sum_capacities();
        if total_capacity < total_tasks {
            return Err(ScaleError::TasksExceedCapacity);
        }
        let mut soft: BTreeMap<u32, u32> = BTreeMap::new();
        let ghost shares = fair_shares(self.capacities@, total_tasks as int);
        let mut i: usize = 0;
        assert(soft@ =~= shares.restrict(ids@.take(0).to_set()));
        while i < ids.len()
            invariant
                i <= ids.len(),
                ids@.to_set() == self.capacities@.dom(),
                shares == fair_shares(self.capacities@, total_tasks as int),
                total_capacity == crate::scale::ring::total_capacity(self.capacities@),
                total_tasks <= total_capacity,
                soft@ == shares.restrict(ids@.take(i as int).to_set()),
            decreases ids.len() - i,
        {
            let id: u32 = ids[i];
            assert(ids@.to_set().contains(ids@[i as int]));
            let capacity: u32 = *self.capacities.get(&id).unwrap();
            let share: u32 = Self::fair_share(total_tasks, capacity, total_capacity);
            soft.insert(id, share);
            proof {
                assert(ids@.take(i + 1) =~= ids@.take(i as int).push(id));
                crate::common::collections::lemma_to_set_push(ids@.take(i as int), id);
                assert(soft@ =~= shares.restrict(ids@.take(i + 1).to_set()));
            }
            i = i + 1;
        }
        assert(ids@.take(i as int) =~= ids@);
        assert(soft@ =~= shares);
        self.distribute_tasks_within(total_tasks, &soft)
    }

    /// The exact fair share of a worker, rounded up.
    fn fair_share(total: u32, capacity: u32, total_capacity: u32) -> (res: u32)
        requires
            total <= total_capacity,
        ensures
            res == fair_share(total as int, capacity as int, total_capacity as int),
            res <= capacity,
    {
        if total_capacity == 0 {
            return 0;
        }
        proof {
            lemma_fair_share_bound(total as int, capacity as int, total_capacity as int);
            assert(total * capacity <= 0xffff_ffff * 0xffff_ffff) by (nonlinear_arith)
                requires
                    0 <= total <= 0xffff_ffff,
                    0 <= capacity <= 0xffff_ffff,
            ;
        }
        let scaled: u64 = total as u64 * capacity as u64;
        let rounded: u64 = (scaled + (total_capacity as u64 - 1)) / total_capacity as u64;
        rounded as u32
    }

    /// The sum of all capacities.
    fn sum_capacities(&self) -> (res: u32)
        requires
            total_capacity(self.spec_capacities()) <= u32::MAX,
        ensures
            res == total_capacity(self.spec_capacities()),
    {
        let ids = map_keys(&self.capacities);
        let mut sum: u32 = 0;
        let mut i: usize = 0;
        assert(ids@.take(0) =~= Seq::<u32>::empty());
        while i < ids.len()
            invariant
                i <= ids.len(),
                ids@.to_set() == self.capacities@.dom(),
                sum == capacity_sum(ids@.take(i as int), self.capacities@),
                capacity_sum(ids@, self.capacities@) <= u32::MAX,
            decreases ids.len() - i,
        {
            let id: u32 = ids[i];
            assert(ids@.to_set().contains(ids@[i as int]));
            let capacity: u32 = *self.capacities.get(&id).unwrap();
            proof {
                assert(ids@.take(i + 1).drop_last() =~= ids@.take(i as int));
                lemma_capacity_prefix(ids@, self.capacities@, i + 1);
            }
            sum = sum + capacity;
            i = i + 1;
        }
        assert(ids@.take(i as int) =~= ids@);
        sum
    }

    /// Spreads the tasks over the workers, each of which gets at most its soft limit.
    pub fn distribute_tasks_within(&self, total_tasks: u32, soft_limits: &BTreeMap<u32, u32>) -> (res:
        Result<BTreeMap<u32, u32>, ScaleError>)
        requires
            self.wf(),
            total_capacity(self.spec_capacities()) <= u32::MAX,
            forall|w: u32| #[trigger]
                self.spec_capacities().contains_key(w) ==> soft_limits@.contains_key(w),
        ensures
            match res {
                Ok(dist) => self.distribution(total_tasks, soft_limits@) == Ok::<
                    Map<u32, u32>,
                    ScaleError,
                >(dist@),
                Err(e) => self.distribution(total_tasks, soft_limits@) == Err::<
                    Map<u32, u32>,
                    ScaleError,
                >(e),
            },
    {
        let total_capacity: u32 = self.sum_capacities();
        if total_capacity < total_tasks {
            return Err(ScaleError::TasksExceedCapacity);
        }
        let points = ring_points(&self.ring);
        let hashes = self.sorted_task_hashes(total_tasks);
        let ghost limits = task_limits(self.capacities@, soft_limits@);
        let mut dist: BTreeMap<u32, u32> = BTreeMap::new();
        let mut i: usize = 0;
        assert(hashes@.take(0) =~= Seq::<u64>::empty());
        while i < hashes.len()
            invariant
                i <= hashes.len(),
                self.wf(),
                points@ == ring_order(self.ring@),
                is_ring_order(self.ring@, points@),
                limits == task_limits(self.capacities@, soft_limits@),
                forall|w: u32| #[trigger]
                    self.capacities@.contains_key(w) ==> soft_limits@.contains_key(w),
                distribute(hashes@.take(i as int), points@, limits) == Some(dist@),
                hashes@ == task_hashes(self.salt, total_tasks as nat),
                total_capacity >= total_tasks,
                total_capacity == crate::scale::ring::total_capacity(self.capacities@),
            decreases hashes.len() - i,
        {
            let ghost dist0 = dist@;
            assert(hashes@.take(i + 1).drop_last() =~= hashes@.take(i as int));
            assert(hashes@.take(i + 1).last() == hashes@[i as int]);
            let assigned = self.assign_task(&points, hashes[i], soft_limits, &mut dist);
            if !assigned {
                proof {
                    lemma_distribute_none(hashes@, points@, limits, i + 1);
                }
                return Err(ScaleError::TasksNotDistributed);
            }
            i = i + 1;
        }
        assert(hashes@.take(i as int) =~= hashes@);
        Ok(dist)
    }

    /// The hashes of the tasks in ascending order.
    fn sorted_task_hashes(&self, total_tasks: u32) -> (res: Vec<u64>)
        ensures
            res@ == task_hashes(self.spec_salt(), total_tasks as nat),
    {
        let mut res: Vec<u64> = Vec::new();
        let mut t: u32 = 0;
        while t < total_tasks
            invariant
                t <= total_tasks,
                res@ == task_hashes(self.salt, t as nat),
            decreases total_tasks - t,
        {
            let mut key: Vec<u32> = Vec::new();
            key.push(self.salt);
            key.push(t);
            assert(key@ =~= seq![self.salt, t]);
            let x: u64 = hash(&key);
            let ghost all = res@;
            let mut p: usize = res.len();
            assert(all.take(p as int) =~= all);
            assert(all.skip(p as int) =~= Seq::<u64>::empty());
            assert(insert_sorted(all, x) =~= insert_sorted(all.take(p as int), x) + all.skip(
                p as int,
            ));
            while p > 0 && res[p - 1] > x
                invariant
                    p <= res.len(),
                    res@ == all,
                    insert_sorted(all, x) == insert_sorted(all.take(p as int), x) + all.skip(
                        p as int,
                    ),
                decreases p,
            {
                proof {
                    assert(all.take(p as int).last() == all[p - 1]);
                    assert(all.take(p as int).drop_last() =~= all.take(p - 1));
                    assert(all.skip(p - 1) =~= seq![all[p - 1]] + all.skip(p as int));
                    assert(insert_sorted(all, x) =~= insert_sorted(all.take(p - 1), x) + all.skip(
                        p - 1,
                    ));
                }
                p = p - 1;
            }
            proof {
                if p > 0 {
                    assert(all.take(p as int).last() == all[p - 1]);
                }
                assert(all.insert(p as int, x) =~= all.take(p as int).push(x) + all.skip(p as int));
            }
            res.insert(p, x);
            t = t + 1;
        }
        res
    }

    /// Gives one task to the first worker with room. Returns whether there is one.
    fn assign_task(
        &self,
        points: &Vec<(u64, u32)>,
        task_hash: u64,
        soft_limits: &BTreeMap<u32, u32>,
        dist: &mut BTreeMap<u32, u32>,
    ) -> (res: bool)
        requires
            self.wf(),
            is_ring_order(self.spec_ring(), points@),
            forall|w: u32| #[trigger]
                self.spec_capacities().contains_key(w) ==> soft_limits@.contains_key(w),
        ensures
            match assign(
                asked(points@, task_hash),
                task_limits(self.spec_capacities(), soft_limits@),
                old(dist)@,
            ) {
                Some(d) => res && final(dist)@ == d,
                None => !res,
            },
    {
        let mut start: usize = points.len();
        assert(points@.take(start as int) =~= points@);
        while start > 0 && points[start - 1].0 >= task_hash
            invariant
                start <= points.len(),
                start_of(points@, task_hash) == start_of(points@.take(start as int), task_hash),
            decreases start,
        {
            assert(points@.take(start as int).last() == points@[start - 1]);
            assert(points@.take(start as int).drop_last() =~= points@.take(start - 1));
            start = start - 1;
        }
        proof {
            if start > 0 {
                assert(points@.take(start as int).last() == points@[start - 1]);
            }
        }
        let ghost order = asked(points@, task_hash);
        let ghost limits = task_limits(self.capacities@, soft_limits@);
        let n: usize = points.len();
        let mut k: usize = start;
        let mut round: bool = false;
        assert(order.skip(0) =~= order);
        // The walk goes to the end of the ring, and then once round it.
        while k < n || !round
            invariant
                k <= n,
                n == points.len(),
                start <= n,
                start == start_of(points@, task_hash),
                !round ==> k >= start,
                self.wf(),
                is_ring_order(self.ring@, points@),
                forall|w: u32| #[trigger]
                    self.capacities@.contains_key(w) ==> soft_limits@.contains_key(w),
                order == asked(points@, task_hash),
                order.len() == n - start + n,
                limits == task_limits(self.capacities@, soft_limits@),
                assign(order, limits, old(dist)@) == assign(
                    order.skip(
                        if round {
                            n - start + k
                        } else {
                            k - start
                        },
                    ),
                    limits,
                    dist@,
                ),
            decreases (if round {
                0int
            } else {
                1int
            }), n - k,
        {
            if k == n {
                round = true;
                k = 0;
                continue;
            }
            let ghost at: int = if round {
                n - start + k
            } else {
                k - start
            };
            let worker_id: u32 = points[k].1;
            assert(order.skip(at)[0] == order[at]);
            assert(order[at] == worker_id);
            assert(order.skip(at).skip(1) =~= order.skip(at + 1));
            assert(self.ring@.contains_key(points@[k as int].0));
            let capacity: u32 = *self.capacities.get(&worker_id).unwrap();
            let soft: u32 = *soft_limits.get(&worker_id).unwrap();
            let limit: u32 = if capacity <= soft {
                capacity
            } else {
                soft
            };
            let count: u32 = match dist.get(&worker_id) {
                Some(count) => *count,
                None => 0,
            };
            if count < limit {
                dist.insert(worker_id, count + 1);
                return true;
            }
            dist.insert(worker_id, count);
            k = k + 1;
        }
        assert(order.skip(order.len() as int) =~= Seq::<u32>::empty());
        false
    }
}

proof fn lemma_capacity_prefix(ids: Seq<u32>, capacities: Map<u32, u32>, n: int)
    requires
        0 <= n <= ids.len(),
    ensures
        capacity_sum(ids.take(n), capacities) <= capacity_sum(ids, capacities),
    decreases ids.len(),
{
    if n == ids.len() {
        assert(ids.take(n) =~= ids);
    } else {
        lemma_capacity_prefix(ids.drop_last(), capacities, n);
        assert(ids.drop_last().take(n) =~= ids.take(n));
    }
}

/// A fair share of no more tasks than there is capacity is within the capacity.
proof fn lemma_fair_share_bound(total: int, capacity: int, sum: int)
    requires
        0 <= total <= sum,
        0 <= capacity,
        0 < sum,
    ensures
        0 <= fair_share(total, capacity, sum) <= capacity,
{
    assert(total * capacity <= sum * capacity) by (nonlinear_arith)
        requires
            0 <= total <= sum,
            0 <= capacity,
    ;
    assert(0 <= total * capacity) by (nonlinear_arith)
        requires
            0 <= total,
            0 <= capacity,
    ;
    let x = total * capacity + sum - 1;
    assert(x <= sum * capacity + sum - 1);
    assert(x / sum <= capacity) by (nonlinear_arith)
        requires
            0 <= x <= sum * capacity + sum - 1,
            0 < sum,
    ;
    assert(x / sum >= 0) by (nonlinear_arith)
        requires
            0 <= x,
            0 < sum,
    ;
}

proof fn lemma_distribute_none(
    hashes: Seq<u64>,
    points: Seq<(u64, u32)>,
    limits: Map<u32, u32>,
    n: int,
)
    requires
        0 <= n <= hashes.len(),
        distribute(hashes.take(n), points, limits) is None,
    ensures
        distribute(hashes, points, limits) is None,
    decreases hashes.len(),
{
    if n == hashes.len() {
        assert(hashes.take(n) =~= hashes);
    } else {
        assert(hashes.drop_last().take(n) =~= hashes.take(n));
        lemma_distribute_none(hashes.drop_last(), points, limits, n);
    }
}

/// The number of tasks that the given workers got together.
pub open spec fn assigned_sum(ids: Seq<u32>, dist: Map<u32, u32>) -> nat
    decreases ids.len(),
{
    if ids.len() == 0 {
        0
    } else {
        assigned_sum(ids.drop_last(), dist) + count_of(dist, ids.last()) as nat
    }
}

/// No worker has more than its limit, and only workers with a limit are in the distribution.
pub open spec fn within(dist: Map<u32, u32>, limits: Map<u32, u32>) -> bool {
    forall|w: u32| #[trigger]
        dist.contains_key(w) ==> limits.contains_key(w) && dist[w] <= limits[w]
}

proof fn lemma_assigned_insert(ids: Seq<u32>, dist: Map<u32, u32>, w: u32, c: u32)
    requires
        ids.no_duplicates(),
    ensures
        ids.contains(w) ==> assigned_sum(ids, dist.insert(w, c)) == assigned_sum(ids, dist)
            - count_of(dist, w) + c,
        !ids.contains(w) ==> assigned_sum(ids, dist.insert(w, c)) == assigned_sum(ids, dist),
    decreases ids.len(),
{
    if ids.len() > 0 {
        let ids0 = ids.drop_last();
        lemma_assigned_insert(ids0, dist, w, c);
        assert(ids[ids.len() - 1] == ids.last());
        if ids0.contains(w) {
            assert(ids[ids0.index_of(w)] == w);
        }
        if ids.contains(w) && w != ids.last() {
            assert(ids0[ids.index_of(w)] == w);
        }
    }
}

/// One task adds one to what the workers got together and keeps the limits.
proof fn lemma_assign(
    order: Seq<u32>,
    limits: Map<u32, u32>,
    dist: Map<u32, u32>,
    ids: Seq<u32>,
)
    requires
        within(dist, limits),
        ids.no_duplicates(),
        forall|w: u32| #[trigger] limits.contains_key(w) <==> ids.contains(w),
        forall|i: int| 0 <= i < order.len() ==> limits.contains_key(#[trigger] order[i]),
    ensures
        assign(order, limits, dist) matches Some(d) ==> within(d, limits) && assigned_sum(ids, d)
            == assigned_sum(ids, dist) + 1,
        assign(order, limits, dist) is Some <==> exists|i: int|
            0 <= i < order.len() && count_of(dist, #[trigger] order[i]) < limits[order[i]],
    decreases order.len(),
{
    if order.len() > 0 {
        let w = order[0];
        let c = count_of(dist, w);
        assert(limits.contains_key(w));
        if c < limits[w] {
            lemma_assigned_insert(ids, dist, w, (c + 1) as u32);
        } else {
            let d0 = dist.insert(w, c);
            let rest = order.skip(1);
            lemma_assigned_insert(ids, dist, w, c);
            assert forall|i: int| 0 <= i < rest.len() implies limits.contains_key(
                #[trigger] rest[i],
            ) by {
                assert(rest[i] == order[i + 1]);
            }
            lemma_assign(rest, limits, d0, ids);
            if exists|i: int| 0 <= i < order.len() && count_of(dist, #[trigger] order[i])
                < limits[order[i]] {
                let i = choose|i: int|
                    0 <= i < order.len() && count_of(dist, #[trigger] order[i]) < limits[order[i]];
                assert(rest[i - 1] == order[i]);
                assert(count_of(d0, rest[i - 1]) < limits[rest[i - 1]]);
            }
            if exists|i: int| 0 <= i < rest.len() && count_of(d0, #[trigger] rest[i])
                < limits[rest[i]] {
                let i = choose|i: int|
                    0 <= i < rest.len() && count_of(d0, #[trigger] rest[i]) < limits[rest[i]];
                assert(order[i + 1] == rest[i]);
            }
        }
    }
}

/// Every point of the ring belongs to one of the workers.
pub open spec fn points_known(points: Seq<(u64, u32)>, ids: Seq<u32>) -> bool {
    forall|i: int| 0 <= i < points.len() ==> ids.contains((#[trigger] points[i]).1)
}

/// Every worker that may get a task has a point on the ring.
pub open spec fn workers_on_ring(points: Seq<(u64, u32)>, limits: Map<u32, u32>) -> bool {
    forall|w: u32| #[trigger]
        limits.contains_key(w) && limits[w] > 0 ==> exists|i: int|
            0 <= i < points.len() && (#[trigger] points[i]).1 == w
}

proof fn lemma_start_of(points: Seq<(u64, u32)>, h: u64)
    ensures
        0 <= start_of(points, h) <= points.len(),
    decreases points.len(),
{
    if points.len() > 0 && !(points.last().0 < h) {
        lemma_start_of(points.drop_last(), h);
    }
}

proof fn lemma_room(ids: Seq<u32>, dist: Map<u32, u32>, limits: Map<u32, u32>) -> (w: u32)
    requires
        assigned_sum(ids, dist) < capacity_sum(ids, limits),
    ensures
        ids.contains(w),
        count_of(dist, w) < limits[w],
    decreases ids.len(),
{
    let ids0 = ids.drop_last();
    assert(ids[ids.len() - 1] == ids.last());
    if count_of(dist, ids.last()) < limits[ids.last()] {
        ids.last()
    } else {
        let w = lemma_room(ids0, dist, limits);
        assert(ids[ids0.index_of(w)] == w);
        w
    }
}

proof fn lemma_distribute(
    hashes: Seq<u64>,
    points: Seq<(u64, u32)>,
    limits: Map<u32, u32>,
    ids: Seq<u32>,
)
    requires
        ids.no_duplicates(),
        forall|w: u32| #[trigger] limits.contains_key(w) <==> ids.contains(w),
        points_known(points, ids),
    ensures
        distribute(hashes, points, limits) matches Some(d) ==> within(d, limits) && assigned_sum(
            ids,
            d,
        ) == hashes.len(),
        workers_on_ring(points, limits) && hashes.len() <= capacity_sum(ids, limits) ==> distribute(
            hashes,
            points,
            limits,
        ) is Some,
    decreases hashes.len(),
{
    if hashes.len() == 0 {
        lemma_assigned_empty(ids);
    } else {
        let hashes0 = hashes.drop_last();
        lemma_distribute(hashes0, points, limits, ids);
        if let Some(dist) = distribute(hashes0, points, limits) {
            let h = hashes.last();
            let order = asked(points, h);
            lemma_start_of(points, h);
            let start = start_of(points, h);
            assert forall|i: int| 0 <= i < order.len() implies limits.contains_key(
                #[trigger] order[i],
            ) by {
                if i < points.len() - start {
                    assert(order[i] == points[start + i].1);
                } else {
                    assert(order[i] == points[i - (points.len() - start)].1);
                }
            }
            lemma_assign(order, limits, dist, ids);
            if workers_on_ring(points, limits) && hashes.len() <= capacity_sum(ids, limits) {
                let w = lemma_room(ids, dist, limits);
                assert(limits.contains_key(w));
                let i = choose|i: int| 0 <= i < points.len() && (#[trigger] points[i]).1 == w;
                let at = points.len() - start + i;
                assert(order[at] == w);
            }
        }
    }
}

proof fn lemma_assigned_empty(ids: Seq<u32>)
    ensures
        assigned_sum(ids, Map::empty()) == 0,
    decreases ids.len(),
{
    if ids.len() > 0 {
        lemma_assigned_empty(ids.drop_last());
    }
}

proof fn lemma_insert_sorted_len(s: Seq<u64>, x: u64)
    ensures
        insert_sorted(s, x).len() == s.len() + 1,
    decreases s.len(),
{
    if !(s.len() == 0 || s.last() <= x) {
        lemma_insert_sorted_len(s.drop_last(), x);
    }
}

proof fn lemma_task_hashes_len(salt: u32, n: nat)
    ensures
        task_hashes(salt, n).len() == n,
    decreases n,
{
    if n > 0 {
        lemma_task_hashes_len(salt, (n - 1) as nat);
        lemma_insert_sorted_len(
            task_hashes(salt, (n - 1) as nat),
            hash_of(seq![salt, (n - 1) as u32]),
        );
    }
}

/// Every point of a ring belongs to a worker with a known capacity.
pub open spec fn is_ring_of(ring: Map<u64, u32>, capacities: Map<u32, u32>) -> bool {
    &&& ring.dom().finite()
    &&& capacities.dom().finite()
    &&& forall|h: u64| #[trigger] ring.contains_key(h) ==> capacities.contains_key(ring[h])
}

proof fn lemma_ids_and_points(ring: Map<u64, u32>, capacities: Map<u32, u32>, soft: Map<u32, u32>)
    requires
        is_ring_of(ring, capacities),
    ensures
        ascending_of(capacities.dom()).no_duplicates(),
        forall|w: u32| #[trigger]
            task_limits(capacities, soft).contains_key(w) <==> ascending_of(
                capacities.dom(),
            ).contains(w),
        points_known(ring_order(ring), ascending_of(capacities.dom())),
{
    let ids = ascending_of(capacities.dom());
    let limits = task_limits(capacities, soft);
    crate::common::collections::lemma_ascending_exists(capacities.dom());
    crate::common::collections::lemma_ascending_len(ids);
    assert forall|w: u32| #[trigger] limits.contains_key(w) <==> ids.contains(w) by {
        assert(ids.to_set().contains(w) <==> ids.contains(w));
    }
    lemma_ring_has_order(ring);
    let points = ring_order(ring);
    assert forall|i: int| 0 <= i < points.len() implies ids.contains((#[trigger] points[i]).1) by {
        assert(ring.contains_key(points[i].0));
        assert(ids.to_set().contains(points[i].1));
    }
}

/// Every task goes to exactly one worker, and no worker gets more than its capacity or its soft
/// limit.
pub proof fn lemma_distribution_total(
    ring: Map<u64, u32>,
    capacities: Map<u32, u32>,
    salt: u32,
    total_tasks: u32,
    soft: Map<u32, u32>,
)
    requires
        is_ring_of(ring, capacities),
    ensures
        distribution_on(ring, capacities, salt, total_tasks, soft) matches Ok(dist)
            ==> assigned_sum(ascending_of(capacities.dom()), dist) == total_tasks && within(
            dist,
            task_limits(capacities, soft),
        ),
{
    let ids = ascending_of(capacities.dom());
    let limits = task_limits(capacities, soft);
    lemma_ids_and_points(ring, capacities, soft);
    lemma_task_hashes_len(salt, total_tasks as nat);
    lemma_distribute(task_hashes(salt, total_tasks as nat), ring_order(ring), limits, ids);
}

/// Where every worker with a capacity has a point on the ring, tasks within the capacity are always
/// spread in fair shares.
pub proof fn lemma_distribution_succeeds(
    ring: Map<u64, u32>,
    capacities: Map<u32, u32>,
    salt: u32,
    total_tasks: u32,
)
    requires
        is_ring_of(ring, capacities),
        workers_on_ring(ring_order(ring), capacities),
        total_tasks <= total_capacity(capacities) <= u32::MAX,
    ensures
        distribution_on(
            ring,
            capacities,
            salt,
            total_tasks,
            fair_shares(capacities, total_tasks as int),
        ) is Ok,
{
    let caps = capacities;
    let ids = ascending_of(caps.dom());
    let soft = fair_shares(caps, total_tasks as int);
    let limits = task_limits(caps, soft);
    let points = ring_order(ring);
    lemma_ids_and_points(ring, caps, soft);
    lemma_task_hashes_len(salt, total_tasks as nat);
    lemma_distribute(task_hashes(salt, total_tasks as nat), points, limits, ids);
    let sum = total_capacity(caps) as int;
    assert forall|w: u32| #[trigger] limits.contains_key(w) && limits[w] > 0 implies exists|i: int|
        0 <= i < points.len() && (#[trigger] points[i]).1 == w by {
        assert(caps.contains_key(w) && caps[w] > 0);
    }
    crate::common::collections::lemma_ascending_exists(caps.dom());
    assert forall|i: int| 0 <= i < ids.len() implies caps.contains_key(#[trigger] ids[i]) by {
        assert(ids.to_set().contains(ids[i]));
    }
    if sum > 0 {
        lemma_shares_sum(ids, caps, limits, total_tasks as int, sum);
        assert(capacity_sum(ids, limits) >= total_tasks) by (nonlinear_arith)
            requires
                sum * capacity_sum(ids, limits) >= total_tasks * sum,
                sum > 0,
        ;
    }
}

/// Where every fair share is a whole number, every worker gets exactly its fair share.
pub proof fn lemma_distribution_proportional(
    ring: Map<u64, u32>,
    capacities: Map<u32, u32>,
    salt: u32,
    total_tasks: u32,
    dist: Map<u32, u32>,
    w: u32,
)
    requires
        is_ring_of(ring, capacities),
        0 < total_capacity(capacities) <= u32::MAX,
        forall|w: u32| #[trigger]
            capacities.contains_key(w) ==> (total_tasks * capacities[w]) % total_capacity(
                capacities,
            ) as int == 0,
        distribution_on(
            ring,
            capacities,
            salt,
            total_tasks,
            fair_shares(capacities, total_tasks as int),
        ) == Ok::<Map<u32, u32>, ScaleError>(dist),
        capacities.contains_key(w),
    ensures
        count_of(dist, w) == (total_tasks * capacities[w]) / total_capacity(capacities) as int,
{
    let caps = capacities;
    let ids = ascending_of(caps.dom());
    let soft = fair_shares(caps, total_tasks as int);
    let limits = task_limits(caps, soft);
    let sum = total_capacity(caps) as int;
    lemma_ids_and_points(ring, caps, soft);
    lemma_distribution_total(ring, caps, salt, total_tasks, soft);
    crate::common::collections::lemma_ascending_exists(caps.dom());
    assert forall|i: int| 0 <= i < ids.len() implies caps.contains_key(#[trigger] ids[i]) by {
        assert(ids.to_set().contains(ids[i]));
    }
    lemma_exact_shares(ids, caps, limits, total_tasks as int, sum);
    assert(sum * capacity_sum(ids, limits) == total_tasks * sum);
    assert(capacity_sum(ids, limits) == total_tasks) by (nonlinear_arith)
        requires
            sum * capacity_sum(ids, limits) == total_tasks * sum,
            sum > 0,
    ;
    assert(limits.contains_key(w));
    assert(ids.contains(w));
    lemma_all_full(ids, dist, limits, w);
    lemma_exact_share(total_tasks as int, caps[w] as int, sum);
    lemma_fair_share_bound(total_tasks as int, caps[w] as int, sum);
}

impl ConsistentHashRing {
    /// The points of a well-formed ring belong to workers with known capacities.
    pub proof fn lemma_wf(&self)
        requires
            self.wf(),
        ensures
            is_ring_of(self.spec_ring(), self.spec_capacities()),
    {
    }
}

/// A fair share that is a whole number is not rounded.
proof fn lemma_exact_share(total: int, capacity: int, sum: int)
    requires
        sum > 0,
        0 <= total,
        0 <= capacity,
        (total * capacity) % sum == 0,
    ensures
        fair_share(total, capacity, sum) == (total * capacity) / sum,
        sum * fair_share(total, capacity, sum) == total * capacity,
{
    let x = total * capacity;
    let q = x / sum;
    vstd::arithmetic::div_mod::lemma_fundamental_div_mod(x, sum);
    assert(x == sum * q);
    assert((x + sum - 1) / sum == q) by (nonlinear_arith)
        requires
            x == sum * q,
            sum > 0,
    ;
}

proof fn lemma_exact_shares(
    ids: Seq<u32>,
    caps: Map<u32, u32>,
    limits: Map<u32, u32>,
    total: int,
    sum: int,
)
    requires
        0 <= total <= sum,
        0 < sum <= u32::MAX,
        forall|i: int| 0 <= i < ids.len() ==> caps.contains_key(#[trigger] ids[i]),
        forall|w: u32| #[trigger] caps.contains_key(w) ==> (total * caps[w]) % sum == 0,
        sum == total_capacity(caps),
        limits == task_limits(caps, fair_shares(caps, total)),
    ensures
        sum * capacity_sum(ids, limits) == total * capacity_sum(ids, caps),
    decreases ids.len(),
{
    if ids.len() > 0 {
        let ids0 = ids.drop_last();
        let w = ids.last();
        assert(ids[ids.len() - 1] == w);
        assert forall|i: int| 0 <= i < ids0.len() implies caps.contains_key(#[trigger] ids0[i]) by {
            assert(ids0[i] == ids[i]);
        }
        lemma_exact_shares(ids0, caps, limits, total, sum);
        lemma_exact_share(total, caps[w] as int, sum);
        lemma_fair_share_bound(total, caps[w] as int, sum);
        let l = limits[w] as int;
        assert(l == fair_share(total, caps[w] as int, sum));
        let a = capacity_sum(ids0, limits) as int;
        let b = capacity_sum(ids0, caps) as int;
        let c = caps[w] as int;
        assert(sum * (a + l) == total * (b + c)) by (nonlinear_arith)
            requires
                sum * a == total * b,
                sum * l == total * c,
        ;
    } else {
        assert(sum * capacity_sum(ids, limits) == 0) by (nonlinear_arith)
            requires
                capacity_sum(ids, limits) == 0,
        ;
        assert(total * capacity_sum(ids, caps) == 0) by (nonlinear_arith)
            requires
                capacity_sum(ids, caps) == 0,
        ;
    }
}

proof fn lemma_shares_sum(
    ids: Seq<u32>,
    caps: Map<u32, u32>,
    limits: Map<u32, u32>,
    total: int,
    sum: int,
)
    requires
        0 <= total <= sum,
        0 < sum <= u32::MAX,
        forall|i: int| 0 <= i < ids.len() ==> caps.contains_key(#[trigger] ids[i]),
        sum == total_capacity(caps),
        limits == task_limits(caps, fair_shares(caps, total)),
    ensures
        sum * capacity_sum(ids, limits) >= total * capacity_sum(ids, caps),
    decreases ids.len(),
{
    if ids.len() > 0 {
        let ids0 = ids.drop_last();
        let w = ids.last();
        assert(ids[ids.len() - 1] == w);
        assert forall|i: int| 0 <= i < ids0.len() implies caps.contains_key(#[trigger] ids0[i]) by {
            assert(ids0[i] == ids[i]);
        }
        lemma_shares_sum(ids0, caps, limits, total, sum);
        lemma_fair_share_bound(total, caps[w] as int, sum);
        let l = limits[w] as int;
        let c = caps[w] as int;
        assert(l == fair_share(total, c, sum));
        let x = total * c + sum - 1;
        vstd::arithmetic::div_mod::lemma_fundamental_div_mod(x, sum);
        assert(0 <= x % sum < sum) by (nonlinear_arith)
            requires
                sum > 0,
        ;
        assert(sum * l >= total * c);
        let a = capacity_sum(ids0, limits) as int;
        let b = capacity_sum(ids0, caps) as int;
        assert(sum * (a + l) >= total * (b + c)) by (nonlinear_arith)
            requires
                sum * a >= total * b,
                sum * l >= total * c,
        ;
    } else {
        assert(sum * capacity_sum(ids, limits) == 0) by (nonlinear_arith)
            requires
                capacity_sum(ids, limits) == 0,
        ;
        assert(total * capacity_sum(ids, caps) == 0) by (nonlinear_arith)
            requires
                capacity_sum(ids, caps) == 0,
        ;
    }
}

/// Workers that got all that their limits allow are each at the limit.
proof fn lemma_all_full(ids: Seq<u32>, dist: Map<u32, u32>, limits: Map<u32, u32>, w: u32)
    requires
        within(dist, limits),
        ids.contains(w),
        assigned_sum(ids, dist) >= capacity_sum(ids, limits),
    ensures
        count_of(dist, w) == limits[w] || count_of(dist, w) > limits[w],
        assigned_sum(ids, dist) == capacity_sum(ids, limits),
    decreases ids.len(),
{
    let ids0 = ids.drop_last();
    let l = ids.last();
    assert(ids[ids.len() - 1] == l);
    lemma_sum_bound(ids0, dist, limits);
    assert(count_of(dist, l) <= limits[l]);
    if w != l {
        assert(ids0[ids.index_of(w)] == w);
        lemma_all_full(ids0, dist, limits, w);
    }
}

proof fn lemma_sum_bound(ids: Seq<u32>, dist: Map<u32, u32>, limits: Map<u32, u32>)
    requires
        within(dist, limits),
    ensures
        assigned_sum(ids, dist) <= capacity_sum(ids, limits),
    decreases ids.len(),
{
    if ids.len() > 0 {
        lemma_sum_bound(ids.drop_last(), dist, limits);
        assert(count_of(dist, ids.last()) <= limits[ids.last()]);
    }
}

} // verus!
