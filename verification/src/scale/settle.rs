//! Settling of balances: what surplus actors hand to deficit actors.
use crate::common::bitmap::{disjoint_bits, ones, union_bits, VNODE_COUNT};
use crate::common::bitmap::{lemma_ones_concat, lemma_ones_union, lemma_ones_zero};
use vstd::prelude::*;

verus! {

/// An actor in the rebalancing queue: the virtual nodes that it holds, and by how many they
/// exceed the number that it is to keep.
pub struct Share {
    pub actor_id: u32,
    pub balance: int,
    pub bits: Seq<bool>,
}

/// The `n` highest set positions of `src`.
pub open spec fn highest(src: Seq<bool>, n: int) -> Seq<bool> {
    Seq::new(src.len(), |k: int| src[k] && ones(src.skip(k + 1)) < n)
}

/// What is left of `src` without its `n` highest set positions.
pub open spec fn without_highest(src: Seq<bool>, n: int) -> Seq<bool> {
    Seq::new(src.len(), |k: int| src[k] && ones(src.skip(k + 1)) >= n)
}

pub open spec fn min_int(a: int, b: int) -> int {
    if a <= b {
        a
    } else {
        b
    }
}

/// How many virtual nodes the head of the queue hands to its tail.
pub open spec fn handed(q: Seq<Share>) -> int {
    min_int(q.first().balance, -q.last().balance)
}

/// The head of the queue after it handed its virtual nodes over.
pub open spec fn giver(q: Seq<Share>) -> Share {
    let n = handed(q);
    Share {
        actor_id: q.first().actor_id,
        balance: q.first().balance - n,
        bits: without_highest(q.first().bits, n),
    }
}

/// The tail of the queue after it took the virtual nodes of the head.
pub open spec fn taker(q: Seq<Share>) -> Share {
    let n = handed(q);
    Share {
        actor_id: q.last().actor_id,
        balance: q.last().balance + n,
        bits: union_bits(q.last().bits, highest(q.first().bits, n)),
    }
}

/// The queue after one hand-over: an actor whose balance is settled leaves it.
pub open spec fn after_hand_over(q: Seq<Share>) -> Seq<Share> {
    let front = if giver(q).balance != 0 {
        seq![giver(q)]
    } else {
        Seq::empty()
    };
    let back = if taker(q).balance != 0 {
        seq![taker(q)]
    } else {
        Seq::empty()
    };
    front + q.subrange(1, q.len() - 1) + back
}

/// The virtual nodes of each actor once the surplus at the head of the queue has been handed,
/// highest virtual node first, to the deficit at its tail, until every balance is settled.
pub open spec fn settle(q: Seq<Share>, removed: Set<u32>) -> Map<u32, Seq<bool>>
    decreases q.len(),
{
    if q.len() == 0 {
        Map::empty()
    } else if q.len() == 1 {
        if removed.contains(q[0].actor_id) {
            Map::empty()
        } else {
            Map::empty().insert(q[0].actor_id, q[0].bits)
        }
    } else if q.first().balance < 0 || q.last().balance > 0 {
        Map::empty()
    } else {
        let rest = settle(after_hand_over(q), removed);
        let with_giver = if giver(q).balance == 0 && !removed.contains(giver(q).actor_id) {
            rest.insert(giver(q).actor_id, giver(q).bits)
        } else {
            rest
        };
        if taker(q).balance == 0 && !removed.contains(taker(q).actor_id) {
            with_giver.insert(taker(q).actor_id, taker(q).bits)
        } else {
            with_giver
        }
    }
}

/// The sum of the balances in the queue.
pub open spec fn total_balance(q: Seq<Share>) -> int
    decreases q.len(),
{
    if q.len() == 0 {
        0
    } else {
        total_balance(q.drop_last()) + q.last().balance
    }
}

/// The number of virtual nodes that an actor holds once its balance is settled.
pub open spec fn settled_count(s: Share) -> int {
    ones(s.bits) - s.balance
}

/// A queue that settles: its balances cancel out, no deficit stands before a surplus, no two
/// actors hold the same virtual node and no actor is to hand over more than it holds.
pub open spec fn settles(q: Seq<Share>, removed: Set<u32>) -> bool {
    &&& total_balance(q) == 0
    &&& forall|i: int, j: int|
        #![trigger q[i], q[j]]
        0 <= i < j < q.len() ==> q[i].actor_id != q[j].actor_id && disjoint_bits(
            q[i].bits,
            q[j].bits,
        ) && (q[i].balance < 0 ==> q[j].balance <= 0)
    &&& forall|i: int|
        #![trigger q[i]]
        0 <= i < q.len() ==> q[i].bits.len() == VNODE_COUNT && 0 <= settled_count(q[i])
            <= VNODE_COUNT && (removed.contains(q[i].actor_id) ==> settled_count(q[i]) == 0)
}

pub proof fn lemma_total_concat(a: Seq<Share>, b: Seq<Share>)
    ensures
        total_balance(a + b) == total_balance(a) + total_balance(b),
    decreases b.len(),
{
    if b.len() == 0 {
        assert(a + b =~= a);
    } else {
        lemma_total_concat(a, b.drop_last());
        assert((a + b).drop_last() =~= a + b.drop_last());
    }
}

proof fn lemma_total_sign(q: Seq<Share>)
    ensures
        (forall|i: int| 0 <= i < q.len() ==> (#[trigger] q[i]).balance <= 0) ==> total_balance(q)
            <= 0 && (q.len() > 0 && q[0].balance < 0 ==> total_balance(q) < 0),
        (forall|i: int| 0 <= i < q.len() ==> (#[trigger] q[i]).balance >= 0) ==> total_balance(q)
            >= 0 && (q.len() > 0 && q.last().balance > 0 ==> total_balance(q) > 0),
    decreases q.len(),
{
    if q.len() > 0 {
        lemma_total_sign(q.drop_last());
        assert(forall|i: int| 0 <= i < q.len() - 1 ==> q[i] == q.drop_last()[i]);
    }
}

/// The highest `n` positions of a bit sequence that has so many are `n` positions, and they and
/// the others make up the sequence.
pub proof fn lemma_highest(src: Seq<bool>, n: int)
    requires
        0 <= n <= ones(src),
    ensures
        ones(highest(src, n)) == n,
        ones(without_highest(src, n)) == ones(src) - n,
        disjoint_bits(highest(src, n), without_highest(src, n)),
{
    let hi = highest(src, n);
    let lo = without_highest(src, n);
    lemma_highest_count(src, n, 0);
    assert(src.skip(0) =~= src);
    assert(hi.skip(0) =~= hi);
    assert(union_bits(hi, lo) =~= src);
    lemma_ones_union(hi, lo);
}

proof fn lemma_highest_count(src: Seq<bool>, n: int, k: int)
    requires
        0 <= n,
        0 <= k <= src.len(),
    ensures
        ones(highest(src, n).skip(k)) == min_int(n, ones(src.skip(k)) as int),
    decreases src.len() - k,
{
    let hi = highest(src, n);
    if k == src.len() {
        assert(hi.skip(k) =~= Seq::<bool>::empty());
        assert(src.skip(k) =~= Seq::<bool>::empty());
    } else {
        lemma_highest_count(src, n, k + 1);
        assert(src.skip(k) =~= seq![src[k]] + src.skip(k + 1));
        assert(hi.skip(k) =~= seq![hi[k]] + hi.skip(k + 1));
        lemma_ones_concat(seq![src[k]], src.skip(k + 1));
        lemma_ones_concat(seq![hi[k]], hi.skip(k + 1));
        lemma_ones_single(src[k]);
        lemma_ones_single(hi[k]);
    }
}

proof fn lemma_ones_single(b: bool)
    ensures
        ones(seq![b]) == (if b {
            1nat
        } else {
            0nat
        }),
{
    assert(seq![b].drop_last() =~= Seq::<bool>::empty());
    assert(ones(Seq::<bool>::empty()) == 0);
    assert(seq![b].last() == b);
}

/// The head of a queue that settles has a surplus and its tail a deficit.
pub proof fn lemma_ends(q: Seq<Share>, removed: Set<u32>)
    requires
        settles(q, removed),
        q.len() >= 2,
    ensures
        q.first().balance >= 0,
        q.last().balance <= 0,
        0 <= handed(q) <= ones(q.first().bits),
        giver(q).balance == 0 || taker(q).balance == 0,
{
    lemma_total_sign(q);
    if q.first().balance < 0 {
        assert(forall|i: int| 0 <= i < q.len() ==> (#[trigger] q[i]).balance <= 0) by {
            assert forall|i: int| 0 <= i < q.len() implies (#[trigger] q[i]).balance <= 0 by {
                if i > 0 {
                    assert(q[0].balance < 0);
                    assert(q[i].balance <= 0);
                }
            }
        }
    }
    if q.last().balance > 0 {
        assert forall|i: int| 0 <= i < q.len() implies (#[trigger] q[i]).balance >= 0 by {
            let l = q.len() - 1;
            if i < l {
                assert(q[l].balance > 0);
            }
        }
    }
    assert(settled_count(q[0]) >= 0);
}

/// A hand-over keeps the queue one that settles, and makes it shorter.
pub proof fn lemma_hand_over(q: Seq<Share>, removed: Set<u32>)
    requires
        settles(q, removed),
        q.len() >= 2,
    ensures
        settles(after_hand_over(q), removed),
        after_hand_over(q).len() < q.len(),
        settled_count(giver(q)) == settled_count(q.first()),
        settled_count(taker(q)) == settled_count(q.last()),
        disjoint_bits(q.last().bits, highest(q.first().bits, handed(q))),
        ones(highest(q.first().bits, handed(q))) == handed(q),
{
    lemma_ends(q, removed);
    let n = handed(q);
    let src = q.first();
    let dst = q.last();
    let l = q.len() - 1;
    lemma_highest(src.bits, n);
    assert(q[0] == src && q[l] == dst);
    assert(disjoint_bits(dst.bits, highest(src.bits, n)));
    lemma_ones_union(dst.bits, highest(src.bits, n));
    let mid = q.subrange(1, l);
    let front = if giver(q).balance != 0 {
        seq![giver(q)]
    } else {
        Seq::empty()
    };
    let back = if taker(q).balance != 0 {
        seq![taker(q)]
    } else {
        Seq::empty()
    };
    let nq = after_hand_over(q);
    assert(q =~= seq![src] + mid + seq![dst]);
    lemma_total_concat(seq![src] + mid, seq![dst]);
    lemma_total_concat(seq![src], mid);
    lemma_total_concat(front + mid, back);
    lemma_total_concat(front, mid);
    lemma_total_single(src);
    lemma_total_single(dst);
    lemma_total_single(giver(q));
    lemma_total_single(taker(q));
    assert(total_balance(Seq::<Share>::empty()) == 0);
    assert(total_balance(nq) == 0);
    let f = front.len();
    assert forall|i: int, j: int|
        #![trigger nq[i], nq[j]]
        0 <= i < j < nq.len() implies nq[i].actor_id != nq[j].actor_id && disjoint_bits(
        nq[i].bits,
        nq[j].bits,
    ) && (nq[i].balance < 0 ==> nq[j].balance <= 0) by {
        let i0 = if i < f {
            0
        } else {
            i - f + 1
        };
        let j0 = if j < f + mid.len() {
            j - f + 1
        } else {
            l
        };
        assert(nq[i] == (if i < f {
            giver(q)
        } else {
            q[i0]
        }));
        assert(nq[j] == (if j < f + mid.len() {
            q[j0]
        } else {
            taker(q)
        }));
        assert(q[i0].actor_id != q[j0].actor_id);
        assert(disjoint_bits(q[i0].bits, q[j0].bits));
        assert(disjoint_bits(q[0].bits, q[l].bits));
        if i >= f {
            assert(disjoint_bits(q[0].bits, q[i0].bits));
        }
        assert forall|k: int|
            0 <= k < nq[i].bits.len() && 0 <= k < nq[j].bits.len() implies !(#[trigger] nq[i].bits[k]
            && #[trigger] nq[j].bits[k]) by {
            assert(!(q[i0].bits[k] && q[j0].bits[k]));
            if i >= f {
                assert(!(q[0].bits[k] && q[i0].bits[k]));
            }
        }
    }
    assert forall|i: int| #![trigger nq[i]] 0 <= i < nq.len() implies nq[i].bits.len()
        == VNODE_COUNT && 0 <= settled_count(nq[i]) <= VNODE_COUNT && (removed.contains(
        nq[i].actor_id,
    ) ==> settled_count(nq[i]) == 0) by {
        if i < f {
            assert(nq[i] == giver(q));
        } else if i < f + mid.len() {
            assert(nq[i] == q[i - f + 1]);
        } else {
            assert(nq[i] == taker(q));
        }
        assert(settled_count(q[0]) >= 0 && settled_count(q[l]) >= 0);
    }
}

proof fn lemma_total_single(s: Share)
    ensures
        total_balance(seq![s]) == s.balance,
{
    assert(seq![s].drop_last() =~= Seq::<Share>::empty());
    assert(total_balance(Seq::<Share>::empty()) == 0);
    assert(seq![s].last() == s);
}

/// Some actor in the queue holds virtual node `k`.
pub open spec fn held_in(q: Seq<Share>, k: int) -> bool {
    exists|i: int| 0 <= i < q.len() && #[trigger] q[i].bits[k]
}

/// Some actor is in the queue under `id`.
pub open spec fn queued(q: Seq<Share>, id: u32) -> bool {
    exists|i: int| 0 <= i < q.len() && (#[trigger] q[i]).actor_id == id
}

/// Some actor of the distribution owns virtual node `k`.
pub open spec fn owned(dist: Map<u32, Seq<bool>>, k: int) -> bool {
    exists|a: u32| dist.contains_key(a) && #[trigger] dist[a][k]
}

/// No virtual node has two owners in the distribution.
pub open spec fn no_overlap(dist: Map<u32, Seq<bool>>) -> bool {
    forall|a: u32, b: u32|
        #![trigger dist[a], dist[b]]
        dist.contains_key(a) && dist.contains_key(b) && a != b ==> disjoint_bits(dist[a], dist[b])
}

/// What a distribution that comes out of a queue owes to it: exactly the actors that stay are in it, with
/// as many virtual nodes as their balances leave them, and every virtual node keeps exactly one owner.
pub open spec fn settled_from(
    q: Seq<Share>,
    removed: Set<u32>,
    dist: Map<u32, Seq<bool>>,
) -> bool {
    &&& forall|id: u32| #[trigger]
        dist.contains_key(id) ==> queued(q, id) && !removed.contains(id)
    &&& forall|i: int|
        #![trigger q[i]]
        0 <= i < q.len() ==> (!removed.contains(q[i].actor_id) ==> dist.contains_key(
            q[i].actor_id,
        )) && (dist.contains_key(q[i].actor_id) ==> dist[q[i].actor_id].len() == VNODE_COUNT
            && ones(dist[q[i].actor_id]) == settled_count(q[i]))
    &&& no_overlap(dist)
    &&& forall|k: int| 0 <= k < VNODE_COUNT ==> (held_in(q, k) <==> #[trigger] owned(dist, k))
}

/// Every position that is set in `a` is set in `b`.
pub open spec fn bits_within(a: Seq<bool>, b: Seq<bool>) -> bool {
    forall|k: int| 0 <= k < VNODE_COUNT && #[trigger] a[k] ==> b[k]
}

/// An actor with a surplus gains no virtual node, and one with a deficit loses none.
pub proof fn lemma_settle_one_way(q: Seq<Share>, removed: Set<u32>, i: int)
    requires
        settles(q, removed),
        0 <= i < q.len(),
        settle(q, removed).contains_key(q[i].actor_id),
    ensures
        q[i].balance >= 0 ==> bits_within(settle(q, removed)[q[i].actor_id], q[i].bits),
        q[i].balance <= 0 ==> bits_within(q[i].bits, settle(q, removed)[q[i].actor_id]),
    decreases q.len(),
{
    if q.len() >= 2 {
        lemma_ends(q, removed);
        lemma_hand_over(q, removed);
        let nq = after_hand_over(q);
        let l = q.len() - 1;
        let g = giver(q);
        let t = taker(q);
        let n = handed(q);
        assert(q[0] == q.first() && q[l] == q.last());
        assert(q[0].actor_id != q[l].actor_id);
        let f: int = if g.balance != 0 {
            1
        } else {
            0
        };
        assert(n == 0 ==> bits_within(q[0].bits, g.bits)) by {
            if n == 0 {
                assert forall|k: int| 0 <= k < VNODE_COUNT && #[trigger] q[0].bits[k] implies g.bits[k] by {
                    assert(ones(q[0].bits.skip(k + 1)) >= 0);
                }
            }
        }
        assert(n == 0 ==> bits_within(t.bits, q[l].bits)) by {
            if n == 0 {
                assert forall|k: int| 0 <= k < VNODE_COUNT && #[trigger] t.bits[k] implies q[l].bits[k] by {
                    assert(ones(q[0].bits.skip(k + 1)) >= 0);
                }
            }
        }
        assert(bits_within(g.bits, q[0].bits));
        assert(bits_within(q[l].bits, t.bits));
        let rest = settle(nq, removed);
        let dist = settle(q, removed);
        lemma_settle(nq, removed);
        if i == 0 {
            if f == 1 {
                assert(nq[0] == g);
                assert(dist[g.actor_id] == rest[g.actor_id]);
                lemma_settle_one_way(nq, removed, 0);
            } else {
                if queued(nq, g.actor_id) {
                    let j = choose|j: int|
                        0 <= j < nq.len() && (#[trigger] nq[j]).actor_id == g.actor_id;
                    if j < l - 1 {
                        assert(nq[j] == q[j + 1]);
                    } else {
                        assert(nq[j] == t);
                    }
                }
                assert(!rest.contains_key(g.actor_id));
                assert(dist[g.actor_id] == g.bits);
            }
        } else if i == l {
            if t.balance == 0 {
                assert(dist[t.actor_id] == t.bits);
            } else {
                let last = nq.len() - 1;
                assert(nq[last] == t);
                lemma_settle_one_way(nq, removed, last);
            }
        } else {
            assert(nq[f + i - 1] == q[i]);
            assert(q[0].actor_id != q[i].actor_id);
            assert(q[i].actor_id != q[l].actor_id);
            lemma_settle_one_way(nq, removed, f + i - 1);
        }
    }
}

/// Settling a queue keeps every promise of `settled_from`.
pub proof fn lemma_settle(q: Seq<Share>, removed: Set<u32>)
    requires
        settles(q, removed),
    ensures
        settled_from(q, removed, settle(q, removed)),
    decreases q.len(),
{
    let dist = settle(q, removed);
    if q.len() == 0 {
        assert forall|k: int| 0 <= k < VNODE_COUNT implies (held_in(q, k) <==> #[trigger] owned(
            dist,
            k,
        )) by {}
    } else if q.len() == 1 {
        let id = q[0].actor_id;
        assert(q.drop_last() =~= Seq::<Share>::empty());
        assert(total_balance(q.drop_last()) == 0);
        assert(q[0].balance == 0);
        assert forall|k: int| 0 <= k < VNODE_COUNT implies (held_in(q, k) <==> #[trigger] owned(
            dist,
            k,
        )) by {
            lemma_ones_zero(q[0].bits);
            if held_in(q, k) {
                assert(q[0].bits[k]);
                assert(dist[id][k]);
            }
            if owned(dist, k) {
                assert(q[0].bits[k]);
            }
        }
        assert forall|x: u32| #[trigger] dist.contains_key(x) implies queued(q, x)
            && !removed.contains(x) by {
            assert(q[0].actor_id == x);
        }
    } else {
        lemma_ends(q, removed);
        lemma_hand_over(q, removed);
        let nq = after_hand_over(q);
        lemma_settle(nq, removed);
        lemma_settle_step(q, removed, settle(nq, removed));
    }
}

#[verifier::spinoff_prover]
#[verifier::rlimit(60)]
proof fn lemma_settle_step(q: Seq<Share>, removed: Set<u32>, rest: Map<u32, Seq<bool>>)
    requires
        q.len() >= 2,
        settles(q, removed),
        settles(after_hand_over(q), removed),
        q.first().balance >= 0,
        q.last().balance <= 0,
        rest == settle(after_hand_over(q), removed),
        settled_from(after_hand_over(q), removed, rest),
    ensures
        settled_from(q, removed, settle(q, removed)),
{
    lemma_ends(q, removed);
    lemma_hand_over(q, removed);
    let dist = settle(q, removed);
    let nq = after_hand_over(q);
    let n = handed(q);
    let l = q.len() - 1;
    let g = giver(q);
    let t = taker(q);
    let hi = highest(q.first().bits, n);
    lemma_highest(q.first().bits, n);
    assert(q[0] == q.first() && q[l] == q.last());
    let f: int = if g.balance != 0 {
        1
    } else {
        0
    };
    let m = l - 1;
    assert forall|i: int| 0 <= i < m implies #[trigger] nq[f + i] == q[i + 1] by {}
    assert(f == 1 ==> nq[0] == g);
    assert(t.balance != 0 ==> nq[f + m] == t && nq.len() == f + m + 1);
    assert(t.balance == 0 ==> nq.len() == f + m);
    // The settled ends are not in the queue that is left.
    assert(g.balance == 0 ==> !queued(nq, g.actor_id)) by {
        if g.balance == 0 && queued(nq, g.actor_id) {
            let i = choose|i: int| 0 <= i < nq.len() && (#[trigger] nq[i]).actor_id == g.actor_id;
            if i < m {
                assert(nq[0 + i] == q[i + 1]);
            }
        }
    }
    assert(t.balance == 0 ==> !queued(nq, t.actor_id)) by {
        if t.balance == 0 && queued(nq, t.actor_id) {
            let i = choose|i: int| 0 <= i < nq.len() && (#[trigger] nq[i]).actor_id == t.actor_id;
            if i >= f {
                assert(nq[f + (i - f)] == q[i - f + 1]);
            }
        }
    }
    assert(q[0].actor_id != q[l].actor_id);
    // Who is in the distribution.
    assert forall|id: u32| #[trigger] dist.contains_key(id) implies queued(q, id)
        && !removed.contains(id) by {
        if id == g.actor_id {
            assert(q[0].actor_id == id);
        } else if id == t.actor_id {
            assert(q[l].actor_id == id);
        } else {
            assert(rest.contains_key(id));
            let i = choose|i: int| 0 <= i < nq.len() && (#[trigger] nq[i]).actor_id == id;
            assert(f <= i < f + m);
            assert(nq[f + (i - f)] == q[i - f + 1]);
            assert(q[i - f + 1].actor_id == id);
        }
    }
    assert forall|i: int| #![trigger q[i]] 0 <= i < q.len() implies (!removed.contains(
        q[i].actor_id,
    ) ==> dist.contains_key(q[i].actor_id)) && (dist.contains_key(q[i].actor_id) ==> dist[q[i].actor_id].len()
        == VNODE_COUNT && ones(dist[q[i].actor_id]) == settled_count(q[i])) by {
        if i == 0 {
            if f == 1 {
                assert(nq[0] == g);
            }
        } else if i == l {
            if t.balance != 0 {
                assert(nq[f + m] == t);
            }
        } else {
            assert(nq[f + (i - 1)] == q[i]);
            assert(q[0].actor_id != q[i].actor_id);
            assert(q[i].actor_id != q[l].actor_id);
        }
    }
    // What the settled ends hold is not held in the queue that is left.
    assert forall|k: int| 0 <= k < VNODE_COUNT && g.balance == 0 && g.bits[k] implies !held_in(
        nq,
        k,
    ) by {
        assert(q[0].bits[k]);
        if held_in(nq, k) {
            let i = choose|i: int| 0 <= i < nq.len() && #[trigger] nq[i].bits[k];
            if i < m {
                assert(nq[0 + i] == q[i + 1]);
                assert(disjoint_bits(q[0].bits, q[i + 1].bits));
            } else {
                assert(disjoint_bits(q[0].bits, q[l].bits));
            }
        }
    }
    assert forall|k: int| 0 <= k < VNODE_COUNT && t.balance == 0 && t.bits[k] implies !held_in(
        nq,
        k,
    ) by {
        assert(q[0].bits[k] || q[l].bits[k]);
        assert(disjoint_bits(q[0].bits, q[l].bits));
        if held_in(nq, k) {
            let i = choose|i: int| 0 <= i < nq.len() && #[trigger] nq[i].bits[k];
            if f <= i {
                assert(nq[f + (i - f)] == q[i - f + 1]);
                assert(disjoint_bits(q[0].bits, q[i - f + 1].bits));
                assert(disjoint_bits(q[i - f + 1].bits, q[l].bits));
            }
        }
    }
    assert forall|a: u32, b: u32|
        #![trigger dist[a], dist[b]]
        dist.contains_key(a) && dist.contains_key(b) && a != b implies disjoint_bits(
        dist[a],
        dist[b],
    ) by {
        assert forall|k: int|
            0 <= k < dist[a].len() && 0 <= k < dist[b].len() implies !(#[trigger] dist[a][k]
            && #[trigger] dist[b][k]) by {
            let a_new = (g.balance == 0 && a == g.actor_id) || (t.balance == 0 && a == t.actor_id);
            let b_new = (g.balance == 0 && b == g.actor_id) || (t.balance == 0 && b == t.actor_id);
            assert(disjoint_bits(q[0].bits, q[l].bits));
            assert(!a_new ==> rest.contains_key(a) && dist[a] == rest[a]);
            assert(!b_new ==> rest.contains_key(b) && dist[b] == rest[b]);
            if !a_new && !b_new {
                assert(disjoint_bits(rest[a], rest[b]));
            } else if !a_new {
                if rest[a][k] {
                    assert(owned(rest, k));
                }
            } else if !b_new {
                if rest[b][k] {
                    assert(owned(rest, k));
                }
            }
        }
    }
    assert forall|k: int| 0 <= k < VNODE_COUNT implies (held_in(q, k) <==> #[trigger] owned(
        dist,
        k,
    )) by {
        assert(owned(rest, k) <==> held_in(nq, k));
        lemma_ones_zero(g.bits);
        lemma_ones_zero(t.bits);
        if held_in(q, k) {
            let i = choose|i: int| 0 <= i < q.len() && #[trigger] q[i].bits[k];
            if 0 < i < l {
                assert(nq[f + (i - 1)] == q[i]);
                assert(held_in(nq, k));
            } else if i == 0 && g.bits[k] {
                if f == 1 {
                    assert(nq[0].bits[k]);
                    assert(held_in(nq, k));
                } else {
                    assert(dist[g.actor_id][k]);
                }
            } else {
                assert(t.bits[k]);
                if t.balance != 0 {
                    assert(nq[f + m].bits[k]);
                    assert(held_in(nq, k));
                } else {
                    assert(dist[t.actor_id][k]);
                }
            }
            if held_in(nq, k) {
                let a = choose|a: u32| rest.contains_key(a) && #[trigger] rest[a][k];
                assert(queued(nq, a));
                assert(dist[a][k]);
            }
        }
        if owned(dist, k) {
            let a = choose|a: u32| dist.contains_key(a) && #[trigger] dist[a][k];
            if t.balance == 0 && a == t.actor_id {
                assert(q[0].bits[k] || q[l].bits[k]);
            } else if g.balance == 0 && a == g.actor_id {
                assert(q[0].bits[k]);
            } else {
                assert(rest[a][k]);
                assert(owned(rest, k));
                let i = choose|i: int| 0 <= i < nq.len() && #[trigger] nq[i].bits[k];
                if i < f {
                    assert(q[0].bits[k]);
                } else if i < f + m {
                    assert(nq[f + (i - f)] == q[i - f + 1]);
                    assert(q[i - f + 1].bits[k]);
                } else {
                    assert(q[0].bits[k] || q[l].bits[k]);
                }
            }
        }
    }
}

} // verus!
