//! Rebalancing of virtual nodes over the actors of a hash-distributed fragment.
use crate::common::bitmap::{disjoint_bits, ones, union_bits, Bitmap, VNODE_COUNT};
use crate::common::bitmap::{lemma_ones_bound, lemma_ones_concat, lemma_ones_full};
use crate::common::bitmap::{lemma_ones_union, lemma_ones_zero};
use crate::common::collections::{ascending, ascending_of, lemma_ascending_exists, set_to_vec};
use crate::scale::model::CustomActorInfo;
use crate::scale::settle::{after_hand_over, giver, handed, highest, min_int, no_overlap, owned};
use crate::scale::settle::{settle, settled_count, settles, taker, total_balance};
use crate::scale::settle::{lemma_ends, lemma_hand_over, lemma_settle};
use crate::scale::settle::{bits_within, lemma_settle_one_way, lemma_total_concat};
use crate::scale::settle::{without_highest, Share};
use num_integer::Integer;
use std::collections::BTreeMap;
use std::collections::BTreeSet;
use std::collections::VecDeque;
use vstd::prelude::*;

verus! {

broadcast use {
    vstd::std_specs::btree::group_btree_axioms,
    vstd::laws_cmp::group_laws_cmp,
};

/// `num_integer::Integer::div_rem` on `usize`: the quotient and the remainder of the division.
#[verifier::external_body]
fn div_rem(dividend: usize, divisor: usize) -> (res: (usize, usize))
    requires
        divisor != 0,
    ensures
        res.0 == dividend / divisor,
        res.1 == dividend % divisor,
{
    dividend.div_rem(&divisor)
}

/// `num_traits::abs` on `i32`: the absolute value. The smallest `i32` has none.
#[verifier::external_body]
fn abs(value: i32) -> (res: i32)
    requires
        value != i32::MIN,
    ensures
        res == (if value < 0 {
            -value
        } else {
            value as int
        }),
{
    num_traits::abs(value)
}

/// An actor and the virtual nodes that it holds.
pub struct Holding {
    pub actor_id: u32,
    pub bits: Seq<bool>,
}

/// What the actors hold, in order.
pub open spec fn holdings(actors: Seq<CustomActorInfo>) -> Seq<Holding> {
    Seq::new(
        actors.len(),
        |i: int| Holding { actor_id: actors[i].actor_id, bits: actors[i].vnode_bitmap->Some_0@ },
    )
}

/// The holdings of the actors that are (`inside`), or are not, in `ids`.
pub open spec fn select(s: Seq<Holding>, ids: Set<u32>, inside: bool) -> Seq<Holding>
    decreases s.len(),
{
    if s.len() == 0 {
        Seq::empty()
    } else if ids.contains(s.last().actor_id) == inside {
        select(s.drop_last(), ids, inside).push(s.last())
    } else {
        select(s.drop_last(), ids, inside)
    }
}

/// How many holdings at the start of `s` hold at least as many virtual nodes as `x`.
pub open spec fn rank(s: Seq<Holding>, x: Holding) -> int
    decreases s.len(),
{
    if s.len() == 0 {
        0
    } else if ones(s.last().bits) >= ones(x.bits) {
        s.len() as int
    } else {
        rank(s.drop_last(), x)
    }
}

/// The holdings from the largest to the smallest; of two equally large, the earlier stays first.
pub open spec fn largest_first(s: Seq<Holding>) -> Seq<Holding>
    decreases s.len(),
{
    if s.len() == 0 {
        Seq::empty()
    } else {
        let sorted = largest_first(s.drop_last());
        sorted.insert(rank(sorted, s.last()), s.last())
    }
}

/// The number of virtual nodes that are held together.
pub open spec fn held_total(s: Seq<Holding>) -> int
    decreases s.len(),
{
    if s.len() == 0 {
        0
    } else {
        held_total(s.drop_last()) + ones(s.last().bits)
    }
}

/// The number of actors after rescheduling.
pub open spec fn target_count(
    actors: Seq<CustomActorInfo>,
    removed: Set<u32>,
    created: Set<u32>,
) -> int {
    actors.len() - removed.len() + created.len()
}

pub open spec fn one_if(c: bool) -> int {
    if c {
        1
    } else {
        0
    }
}

/// The actors that leave, each with all that it holds as surplus.
pub open spec fn leaving(gone: Seq<Holding>) -> Seq<Share> {
    Seq::new(
        gone.len(),
        |i: int|
            Share {
                actor_id: gone[i].actor_id,
                balance: ones(gone[i].bits) as int,
                bits: gone[i].bits,
            },
    )
}

/// The actors that stay: what the `made` created actors leave of the remainder is theirs.
pub open spec fn staying(rest: Seq<Holding>, expected: int, remain: int, made: int) -> Seq<Share> {
    Seq::new(
        rest.len(),
        |i: int|
            Share {
                actor_id: rest[i].actor_id,
                balance: ones(rest[i].bits) - expected - one_if(made + i < remain),
                bits: rest[i].bits,
            },
    )
}

/// The place of the created actor `j` in line for the remainder: the last `head` of the `count` created
/// actors come first, beginning with the last, then the others, beginning with the first.
pub open spec fn line_place(count: int, head: int, j: int) -> int {
    if j >= count - head {
        count - 1 - j
    } else {
        head + j
    }
}

/// The actors that are created: they are first in line for the remainder.
pub open spec fn arriving(made: Seq<u32>, expected: int, remain: int, head: int) -> Seq<Share> {
    Seq::new(
        made.len(),
        |j: int|
            Share {
                actor_id: made[j],
                balance: -expected - one_if(line_place(made.len() as int, head, j) < remain),
                bits: Seq::new(VNODE_COUNT as nat, |k: int| false),
            },
    )
}

/// How many of the created actors are in line ahead of the other created ones: one for each virtual node
/// that the leaving actors held above the previous average.
pub open spec fn head_start(
    actors: Seq<CustomActorInfo>,
    removed: Set<u32>,
    created: Set<u32>,
) -> int {
    let gone = select(holdings(actors), removed, true);
    min_int(
        held_total(gone) - gone.len() * (VNODE_COUNT as int / actors.len() as int),
        created.len() as int,
    )
}

/// The rebalancing queue: leaving, staying and created actors, in this order.
pub open spec fn balance_queue(
    actors: Seq<CustomActorInfo>,
    removed: Set<u32>,
    created: Set<u32>,
) -> Seq<Share> {
    let target = target_count(actors, removed, created);
    let expected = VNODE_COUNT as int / target;
    let remain = VNODE_COUNT as int % target;
    let held = holdings(actors);
    let gone = largest_first(select(held, removed, true));
    let rest = largest_first(select(held, removed, false));
    let made = ascending_of(created);
    let head = head_start(actors, removed, created);
    leaving(gone) + staying(rest, expected, remain, made.len() as int) + arriving(
        made,
        expected,
        remain,
        head,
    )
}

/// No two holdings are of one actor or share a virtual node.
pub open spec fn apart(s: Seq<Holding>) -> bool {
    forall|i: int, j: int|
        #![trigger s[i], s[j]]
        0 <= i < j < s.len() ==> s[i].actor_id != s[j].actor_id && disjoint_bits(
            s[i].bits,
            s[j].bits,
        )
}

/// The actors own every virtual node exactly once.
pub open spec fn own_all_vnodes(actors: Seq<CustomActorInfo>) -> bool {
    &&& forall|i: int|
        0 <= i < actors.len() ==> (#[trigger] actors[i]).vnode_bitmap is Some
            && actors[i].vnode_bitmap->Some_0@.len() == VNODE_COUNT
    &&& apart(holdings(actors))
    &&& forall|k: int| 0 <= k < VNODE_COUNT ==> #[trigger] held_by_some(holdings(actors), k)
}

/// Virtual node `k` is in one of the holdings.
pub open spec fn held_by_some(s: Seq<Holding>, k: int) -> bool {
    exists|i: int| 0 <= i < s.len() && #[trigger] s[i].bits[k]
}

pub open spec fn is_actor(actors: Seq<CustomActorInfo>, id: u32) -> bool {
    exists|i: int| 0 <= i < actors.len() && (#[trigger] actors[i]).actor_id == id
}

/// The reschedules that rebalancing is defined for: the actors own every virtual node once, what
/// is removed is there and holds no less than the average, what is created is new, and some actor
/// is left.
pub open spec fn can_rebalance(
    actors: Seq<CustomActorInfo>,
    removed: Set<u32>,
    created: Set<u32>,
) -> bool {
    &&& own_all_vnodes(actors)
    &&& forall|id: u32| #[trigger] removed.contains(id) ==> is_actor(actors, id)
    &&& forall|id: u32| #[trigger] created.contains(id) ==> !is_actor(actors, id)
    &&& target_count(actors, removed, created) > 0
    &&& forall|i: int|
        0 <= i < actors.len() && removed.contains((#[trigger] actors[i]).actor_id) ==> ones(
            actors[i].vnode_bitmap->Some_0@,
        ) >= VNODE_COUNT as int / actors.len() as int
}

proof fn lemma_select(s: Seq<Holding>, ids: Set<u32>, inside: bool)
    ensures
        forall|x: Holding| #[trigger]
            select(s, ids, inside).contains(x) <==> s.contains(x) && ids.contains(x.actor_id)
                == inside,
        apart(s) ==> apart(select(s, ids, inside)),
    decreases s.len(),
{
    if s.len() > 0 {
        let s0 = s.drop_last();
        lemma_select(s0, ids, inside);
        let t0 = select(s0, ids, inside);
        let t = select(s, ids, inside);
        assert forall|x: Holding| #[trigger] t.contains(x) <==> s.contains(x) && ids.contains(
            x.actor_id,
        ) == inside by {
            assert(s =~= s0.push(s.last()));
            if s0.contains(x) {
                assert(s[s0.index_of(x)] == x);
            }
            assert(s[s.len() - 1] == s.last());
            if t0.contains(x) {
                assert(t[t0.index_of(x)] == x);
            }
            if t.contains(x) {
                let i = t.index_of(x);
                if i < t0.len() {
                    assert(t0[i] == x);
                    assert(t0.contains(x));
                }
            }
            if s.contains(x) {
                let i = s.index_of(x);
                if i < s0.len() {
                    assert(s0[i] == x);
                    assert(s0.contains(x));
                } else if ids.contains(x.actor_id) == inside {
                    assert(t[t0.len() as int] == x);
                }
            }
        }
        if apart(s) {
            assert(apart(s0));
            assert forall|i: int, j: int|
                #![trigger t[i], t[j]]
                0 <= i < j < t.len() implies t[i].actor_id != t[j].actor_id && disjoint_bits(
                t[i].bits,
                t[j].bits,
            ) by {
                assert(t[i] == t0[i]);
                if j < t0.len() {
                    assert(t[j] == t0[j]);
                } else {
                    assert(t0.contains(t0[i]));
                    let a = s0.index_of(t0[i]);
                    assert(s[a] == t0[i]);
                    assert(s[s.len() - 1] == t[j]);
                }
            }
        }
    }
}

proof fn lemma_select_total(s: Seq<Holding>, ids: Set<u32>)
    ensures
        held_total(select(s, ids, true)) + held_total(select(s, ids, false)) == held_total(s),
        select(s, ids, true).len() + select(s, ids, false).len() == s.len(),
    decreases s.len(),
{
    if s.len() > 0 {
        lemma_select_total(s.drop_last(), ids);
        let t = select(s.drop_last(), ids, ids.contains(s.last().actor_id));
        assert(t.push(s.last()).drop_last() =~= t);
    }
}

proof fn lemma_rank(s: Seq<Holding>, x: Holding)
    requires
        forall|i: int, j: int|
            #![trigger s[i], s[j]]
            0 <= i < j < s.len() ==> ones(s[i].bits) >= ones(s[j].bits),
    ensures
        0 <= rank(s, x) <= s.len(),
        forall|i: int|
            #![trigger s[i]]
            0 <= i < s.len() ==> (i < rank(s, x) <==> ones(s[i].bits) >= ones(x.bits)),
    decreases s.len(),
{
    if s.len() > 0 {
        let s0 = s.drop_last();
        assert forall|i: int, j: int|
            #![trigger s0[i], s0[j]]
            0 <= i < j < s0.len() implies ones(s0[i].bits) >= ones(s0[j].bits) by {
            assert(s0[i] == s[i] && s0[j] == s[j]);
        }
        lemma_rank(s0, x);
        assert(forall|i: int| 0 <= i < s0.len() ==> s0[i] == #[trigger] s[i]);
        assert(s[s.len() - 1] == s.last());
    }
}

/// Sorting keeps the holdings and puts larger ones before smaller ones.
#[verifier::spinoff_prover]
#[verifier::rlimit(40)]
proof fn lemma_largest_first(s: Seq<Holding>)
    ensures
        largest_first(s).len() == s.len(),
        held_total(largest_first(s)) == held_total(s),
        forall|x: Holding| #[trigger] largest_first(s).contains(x) <==> s.contains(x),
        apart(s) ==> apart(largest_first(s)),
        forall|i: int, j: int|
            #![trigger largest_first(s)[i], largest_first(s)[j]]
            0 <= i < j < s.len() ==> ones(largest_first(s)[i].bits) >= ones(
                largest_first(s)[j].bits,
            ),
    decreases s.len(),
{
    if s.len() > 0 {
        let s0 = s.drop_last();
        let x = s.last();
        lemma_largest_first(s0);
        let t0 = largest_first(s0);
        let t = largest_first(s);
        let p = rank(t0, x);
        lemma_rank(t0, x);
        lemma_insert_total(t0, p, x);
        assert(forall|i: int| 0 <= i < p ==> #[trigger] t[i] == t0[i]);
        assert(t[p] == x);
        assert(forall|i: int| p < i < t.len() ==> #[trigger] t[i] == t0[i - 1]);
        assert forall|i: int, j: int|
            #![trigger t[i], t[j]]
            0 <= i < j < t.len() implies ones(t[i].bits) >= ones(t[j].bits) by {
            let i0 = if i < p {
                i
            } else {
                i - 1
            };
            let j0 = if j < p {
                j
            } else {
                j - 1
            };
            if i != p && j != p {
                assert(t[i] == t0[i0] && t[j] == t0[j0]);
            } else if i == p {
                assert(t[j] == t0[j0]);
            } else {
                assert(t[i] == t0[i0]);
            }
        }
        assert forall|y: Holding| #[trigger] t.contains(y) <==> s.contains(y) by {
            assert(s[s.len() - 1] == x);
            if s.contains(y) {
                let i = s.index_of(y);
                if i < s0.len() {
                    assert(s0[i] == y);
                    assert(s0.contains(y));
                    assert(t0.contains(y));
                    let k = t0.index_of(y);
                    assert(k < p ==> t[k] == y);
                    assert(k >= p ==> t[k + 1] == y);
                }
            }
            if t.contains(y) {
                let i = t.index_of(y);
                if i != p {
                    let i0 = if i < p {
                        i
                    } else {
                        i - 1
                    };
                    assert(t0[i0] == y);
                    assert(t0.contains(y));
                    assert(s0.contains(y));
                    assert(s[s0.index_of(y)] == y);
                }
            }
        }
        if apart(s) {
            assert(apart(s0));
            assert forall|i: int, j: int|
                #![trigger t[i], t[j]]
                0 <= i < j < t.len() implies t[i].actor_id != t[j].actor_id && disjoint_bits(
                t[i].bits,
                t[j].bits,
            ) by {
                let i0 = if i < p {
                    i
                } else {
                    i - 1
                };
                let j0 = if j < p {
                    j
                } else {
                    j - 1
                };
                if i != p && j != p {
                    assert(t[i] == t0[i0] && t[j] == t0[j0]);
                } else {
                    let o = if i == p {
                        t0[j0]
                    } else {
                        t0[i0]
                    };
                    assert(t0.contains(o));
                    assert(s0.contains(o));
                    let a = s0.index_of(o);
                    assert(s[a] == o && s[s.len() - 1] == x);
                }
            }
        }
    }
}

proof fn lemma_insert_total(s: Seq<Holding>, p: int, x: Holding)
    requires
        0 <= p <= s.len(),
    ensures
        held_total(s.insert(p, x)) == held_total(s) + ones(x.bits),
    decreases s.len(),
{
    if p == s.len() {
        assert(s.insert(p, x) =~= s.push(x));
        assert(s.push(x).drop_last() =~= s);
    } else {
        assert(s.insert(p, x).drop_last() =~= s.drop_last().insert(p, x));
        lemma_insert_total(s.drop_last(), p, x);
    }
}

/// The union of what is held.
spec fn held_union(s: Seq<Holding>) -> Seq<bool> {
    Seq::new(
        VNODE_COUNT as nat,
        |k: int| held_by_some(s, k),
    )
}

proof fn lemma_held_union(s: Seq<Holding>)
    requires
        apart(s),
        forall|i: int| 0 <= i < s.len() ==> (#[trigger] s[i]).bits.len() == VNODE_COUNT,
    ensures
        held_total(s) == ones(held_union(s)),
    decreases s.len(),
{
    if s.len() == 0 {
        lemma_ones_zero(held_union(s));
    } else {
        let s0 = s.drop_last();
        assert(apart(s0));
        lemma_held_union(s0);
        let u0 = held_union(s0);
        let x = s.last();
        assert(s[s.len() - 1] == x);
        assert(disjoint_bits(u0, x.bits)) by {
            assert forall|k: int| 0 <= k < u0.len() && 0 <= k < x.bits.len() implies !(
            #[trigger] u0[k] && #[trigger] x.bits[k]) by {
                if u0[k] {
                    let i = choose|i: int| 0 <= i < s0.len() && #[trigger] s0[i].bits[k];
                    assert(s[i] == s0[i]);
                    assert(disjoint_bits(s[i].bits, s[s.len() - 1].bits));
                }
            }
        }
        lemma_ones_union(u0, x.bits);
        assert(held_union(s) =~= union_bits(u0, x.bits)) by {
            assert forall|k: int| 0 <= k < VNODE_COUNT implies held_union(s)[k] == union_bits(
                u0,
                x.bits,
            )[k] by {
                if held_union(s)[k] {
                    let i = choose|i: int| 0 <= i < s.len() && #[trigger] s[i].bits[k];
                    if i < s0.len() {
                        assert(s0[i].bits[k]);
                    }
                }
                if u0[k] {
                    let i = choose|i: int| 0 <= i < s0.len() && #[trigger] s0[i].bits[k];
                    assert(s[i].bits[k]);
                }
                if x.bits[k] {
                    assert(s[s.len() - 1].bits[k]);
                }
            }
        }
    }
}

proof fn lemma_leaving(gone: Seq<Holding>)
    ensures
        total_balance(leaving(gone)) == held_total(gone),
    decreases gone.len(),
{
    if gone.len() > 0 {
        lemma_leaving(gone.drop_last());
        assert(leaving(gone).drop_last() =~= leaving(gone.drop_last()));
    }
}

pub open spec fn clamp(x: int, hi: int) -> int {
    if x < 0 {
        0
    } else if x > hi {
        hi
    } else {
        x
    }
}

proof fn lemma_staying(rest: Seq<Holding>, expected: int, remain: int, made: int)
    ensures
        total_balance(staying(rest, expected, remain, made)) == held_total(rest) - expected
            * rest.len() - clamp(remain - made, rest.len() as int),
    decreases rest.len(),
{
    let full = staying(rest, expected, remain, made);
    if rest.len() > 0 {
        let rest0 = rest.drop_last();
        lemma_staying(rest0, expected, remain, made);
        assert(full.drop_last() =~= staying(rest0, expected, remain, made));
        assert(expected * rest.len() == expected * rest0.len() + expected) by (nonlinear_arith)
            requires
                rest.len() == rest0.len() + 1,
        ;
    } else {
        assert(expected * rest.len() == 0) by (nonlinear_arith)
            requires
                rest.len() == 0,
        ;
    }
}

/// The balances of the first `n` created actors add up.
proof fn lemma_arriving(made: Seq<u32>, expected: int, remain: int, head: int, n: nat)
    requires
        n <= made.len(),
        0 <= remain,
        0 <= head <= made.len(),
    ensures
        total_balance(arriving(made, expected, remain, head).take(n as int)) == -(expected * n)
            - clamp(remain - head, min_int(n as int, made.len() - head)) - clamp(
            n - (made.len() - min_int(head, remain)),
            n as int,
        ),
    decreases n,
{
    let full = arriving(made, expected, remain, head);
    if n > 0 {
        lemma_arriving(made, expected, remain, head, (n - 1) as nat);
        assert(full.take(n as int).drop_last() =~= full.take(n - 1));
        assert(full.take(n as int).last() == full[n - 1]);
        assert(expected * n == expected * (n - 1) + expected) by (nonlinear_arith);
    } else {
        assert(full.take(0) =~= Seq::<Share>::empty());
        assert(expected * n == 0) by (nonlinear_arith)
            requires
                n == 0,
        ;
    }
}

/// As many actors are selected as ids, where each id is that of an actor.
proof fn lemma_select_len(actors: Seq<CustomActorInfo>, ids: Set<u32>)
    requires
        apart(holdings(actors)),
        forall|id: u32| #[trigger] ids.contains(id) ==> is_actor(actors, id),
    ensures
        select(holdings(actors), ids, true).len() == ids.len(),
{
    let held = holdings(actors);
    let sel = select(held, ids, true);
    lemma_select(held, ids, true);
    let names = Seq::new(sel.len(), |i: int| sel[i].actor_id);
    assert(names.no_duplicates());
    assert forall|id: u32| names.to_set().contains(id) <==> ids.contains(id) by {
        if names.contains(id) {
            let i = names.index_of(id);
            assert(sel.contains(sel[i]));
        }
        if ids.contains(id) {
            assert(is_actor(actors, id));
            let i = choose|i: int| 0 <= i < actors.len() && (#[trigger] actors[i]).actor_id == id;
            assert(held[i].actor_id == id);
            assert(held.contains(held[i]));
            assert(sel.contains(held[i]));
            let k = sel.index_of(held[i]);
            assert(names[k] == id);
        }
    }
    assert(names.to_set() =~= ids);
    names.unique_seq_to_set();
}

/// The queue of a reschedule that can be rebalanced settles.
proof fn lemma_queue_settles(actors: Seq<CustomActorInfo>, removed: Set<u32>, created: Set<u32>)
    requires
        can_rebalance(actors, removed, created),
        created.finite(),
    ensures
        settles(balance_queue(actors, removed, created), removed),
        0 <= head_start(actors, removed, created) <= created.len(),
{
    lemma_ascending_exists(created);
    let target = target_count(actors, removed, created);
    let expected = VNODE_COUNT as int / target;
    let remain = VNODE_COUNT as int % target;
    let held = holdings(actors);
    let sel_gone = select(held, removed, true);
    let sel_rest = select(held, removed, false);
    let gone = largest_first(sel_gone);
    let rest = largest_first(sel_rest);
    let made = ascending_of(created);
    lemma_select(held, removed, true);
    lemma_select(held, removed, false);
    lemma_select_total(held, removed);
    lemma_select_len(actors, removed);
    lemma_largest_first(sel_gone);
    lemma_largest_first(sel_rest);
    assert(forall|i: int| 0 <= i < held.len() ==> (#[trigger] held[i]).bits == actors[i].vnode_bitmap->Some_0@);
    lemma_held_union(held);
    assert(forall|k: int| 0 <= k < VNODE_COUNT ==> held_by_some(held, k) ==> #[trigger] held_union(held)[k]);
    lemma_ones_full(held_union(held));
    assert(held_total(held) == VNODE_COUNT);
    // The head start is not negative: no leaving actor holds less than the previous average.
    let head = head_start(actors, removed, created);
    let prev_expected = VNODE_COUNT as int / actors.len() as int;
    assert forall|i: int| 0 <= i < sel_gone.len() implies ones((#[trigger] sel_gone[i]).bits)
        >= prev_expected by {
        assert(sel_gone.contains(sel_gone[i]));
        let a = held.index_of(sel_gone[i]);
        assert(removed.contains(actors[a].actor_id));
    }
    lemma_total_floor(sel_gone, prev_expected);
    made.unique_seq_to_set();
    assert(0 <= head <= made.len());
    assert(rest.len() + made.len() == target);
    // Balances cancel out.
    let a = leaving(gone);
    let b = staying(rest, expected, remain, made.len() as int);
    let c = arriving(made, expected, remain, head);
    let q = balance_queue(actors, removed, created);
    lemma_leaving(gone);
    lemma_staying(rest, expected, remain, made.len() as int);
    lemma_arriving(made, expected, remain, head, made.len());
    assert(c.take(made.len() as int) =~= c);
    lemma_total_concat(a, b);
    lemma_total_concat(a + b, c);
    vstd::arithmetic::div_mod::lemma_fundamental_div_mod(VNODE_COUNT as int, target);
    assert(expected * rest.len() + expected * made.len() == target * expected) by (nonlinear_arith)
        requires
            rest.len() + made.len() == target,
    ;
    assert(0 <= remain < target);
    assert(total_balance(q) == 0);
    lemma_queue_shape(actors, removed, created, gone, rest, made, expected, remain, head);
}

proof fn lemma_total_floor(s: Seq<Holding>, floor: int)
    requires
        forall|i: int| 0 <= i < s.len() ==> ones((#[trigger] s[i]).bits) >= floor,
    ensures
        held_total(s) >= s.len() * floor,
    decreases s.len(),
{
    if s.len() > 0 {
        lemma_total_floor(s.drop_last(), floor);
        assert(s[s.len() - 1] == s.last());
        assert(s.len() * floor == (s.len() - 1) * floor + floor) by (nonlinear_arith);
    } else {
        assert(s.len() * floor == 0) by (nonlinear_arith)
            requires
                s.len() == 0,
        ;
    }
}

#[verifier::spinoff_prover]
#[verifier::rlimit(40)]
proof fn lemma_queue_shape(
    actors: Seq<CustomActorInfo>,
    removed: Set<u32>,
    created: Set<u32>,
    gone: Seq<Holding>,
    rest: Seq<Holding>,
    made: Seq<u32>,
    expected: int,
    remain: int,
    head: int,
)
    requires
        can_rebalance(actors, removed, created),
        gone == largest_first(select(holdings(actors), removed, true)),
        rest == largest_first(select(holdings(actors), removed, false)),
        made == ascending_of(created),
        ascending(made),
        made.to_set() == created,
        0 <= remain < rest.len() + made.len(),
        0 <= head <= made.len(),
        0 <= expected,
        expected * (rest.len() + made.len()) + remain == VNODE_COUNT,
        total_balance(
            leaving(gone) + staying(rest, expected, remain, made.len() as int) + arriving(
                made,
                expected,
                remain,
                head,
            ),
        ) == 0,
    ensures
        settles(
            leaving(gone) + staying(rest, expected, remain, made.len() as int) + arriving(
                made,
                expected,
                remain,
                head,
            ),
            removed,
        ),
{
    let held = holdings(actors);
    lemma_select(held, removed, true);
    lemma_select(held, removed, false);
    lemma_largest_first(select(held, removed, true));
    lemma_largest_first(select(held, removed, false));
    let a = leaving(gone);
    let b = staying(rest, expected, remain, made.len() as int);
    let c = arriving(made, expected, remain, head);
    let q = a + b + c;
    let g = gone.len() as int;
    let r = rest.len() as int;
    assert(forall|i: int| 0 <= i < g ==> #[trigger] q[i] == a[i]);
    assert(forall|i: int| g <= i < g + r ==> #[trigger] q[i] == b[i - g]);
    assert(forall|i: int| g + r <= i < q.len() ==> #[trigger] q[i] == c[i - g - r]);
    assert(expected <= VNODE_COUNT && (expected == VNODE_COUNT ==> remain == 0)) by (nonlinear_arith)
        requires
            expected * (r + made.len()) + remain == VNODE_COUNT,
            r + made.len() > remain,
            0 <= remain,
            0 <= expected,
    ;
    // Where the holdings of the queue come from.
    assert forall|i: int| 0 <= i < g + r implies held.contains(
        Holding { actor_id: (#[trigger] q[i]).actor_id, bits: q[i].bits },
    ) && removed.contains(q[i].actor_id) == (i < g) by {
        if i < g {
            assert(gone.contains(gone[i]));
            assert(gone[i] == Holding { actor_id: q[i].actor_id, bits: q[i].bits });
        } else {
            assert(rest.contains(rest[i - g]));
            assert(rest[i - g] == Holding { actor_id: q[i].actor_id, bits: q[i].bits });
        }
    }
    assert forall|i: int| g + r <= i < q.len() implies created.contains(
        (#[trigger] q[i]).actor_id,
    ) && !removed.contains(q[i].actor_id) && !is_actor(actors, q[i].actor_id) by {
        assert(made.contains(made[i - g - r]));
        assert(made.to_set().contains(q[i].actor_id));
    }
    assert forall|i: int, j: int|
        #![trigger q[i], q[j]]
        0 <= i < j < q.len() implies q[i].actor_id != q[j].actor_id && disjoint_bits(
        q[i].bits,
        q[j].bits,
    ) && (q[i].balance < 0 ==> q[j].balance <= 0) by {
        if j >= g + r {
            assert(q[j].balance <= 0);
            if i < g + r {
                let h = held.index_of(Holding { actor_id: q[i].actor_id, bits: q[i].bits });
                assert(actors[h].actor_id == q[i].actor_id);
                assert(is_actor(actors, q[i].actor_id));
            } else {
                assert(made[i - g - r] < made[j - g - r]);
            }
        } else {
            let hi = held.index_of(Holding { actor_id: q[i].actor_id, bits: q[i].bits });
            let hj = held.index_of(Holding { actor_id: q[j].actor_id, bits: q[j].bits });
            if i < g && j < g {
                assert(gone[i].actor_id != gone[j].actor_id);
            } else if i >= g {
                assert(rest[i - g].actor_id != rest[j - g].actor_id);
                assert(ones(rest[i - g].bits) >= ones(rest[j - g].bits));
            }
            assert(hi != hj);
            assert(disjoint_bits(held[hi].bits, held[hj].bits) || disjoint_bits(
                held[hj].bits,
                held[hi].bits,
            ));
        }
    }
    assert forall|i: int| #![trigger q[i]] 0 <= i < q.len() implies q[i].bits.len() == VNODE_COUNT
        && 0 <= settled_count(q[i]) <= VNODE_COUNT && (removed.contains(q[i].actor_id)
        ==> settled_count(q[i]) == 0) by {
        if i < g + r {
            let h = held.index_of(Holding { actor_id: q[i].actor_id, bits: q[i].bits });
            assert(held[h].bits == actors[h].vnode_bitmap->Some_0@);
            assert(actors[h].vnode_bitmap is Some);
        } else {
            lemma_ones_zero(q[i].bits);
        }
    }
}

/// An actor in the rebalancing queue.
struct Balance {
    actor_id: u32,
    balance: i32,
    builder: Bitmap,
}

impl View for Balance {
    type V = Share;

    closed spec fn view(&self) -> Share {
        Share { actor_id: self.actor_id, balance: self.balance as int, bits: self.builder@ }
    }
}

spec fn shares(q: Seq<Balance>) -> Seq<Share> {
    Seq::new(q.len(), |i: int| q[i]@)
}

proof fn lemma_shares_push(q: Seq<Balance>, b: Balance)
    ensures
        shares(q.push(b)) == shares(q).push(b@),
{
    assert(shares(q.push(b)) =~= shares(q).push(b@));
}

/// The bits behind a map of bitmaps.
pub open spec fn bitmaps(m: Map<u32, Bitmap>) -> Map<u32, Seq<bool>> {
    Map::new(|k: u32| m.contains_key(k), |k: u32| m[k]@)
}

/// The distribution after rescheduling: exactly the actors that stay or are created are in it, each with
/// either the average number of virtual nodes or one more, and every virtual node has exactly one owner.
pub open spec fn rebalanced(
    actors: Seq<CustomActorInfo>,
    removed: Set<u32>,
    created: Set<u32>,
    dist: Map<u32, Seq<bool>>,
) -> bool {
    let expected = VNODE_COUNT as int / target_count(actors, removed, created);
    &&& forall|id: u32|
        (is_actor(actors, id) && !removed.contains(id)) || created.contains(id)
            ==> #[trigger] dist.contains_key(id) && dist[id].len() == VNODE_COUNT && expected
            <= ones(dist[id]) <= expected + 1
    &&& forall|id: u32| #[trigger]
        dist.contains_key(id) ==> (is_actor(actors, id) && !removed.contains(id))
            || created.contains(id)
    &&& no_overlap(dist)
    &&& forall|k: int| 0 <= k < VNODE_COUNT ==> #[trigger] owned(dist, k)
}

/// Settling the queue of a reschedule rebalances it.
#[verifier::spinoff_prover]
#[verifier::rlimit(60)]
pub proof fn lemma_rebalanced(
    actors: Seq<CustomActorInfo>,
    removed: Set<u32>,
    created: Set<u32>,
)
    requires
        can_rebalance(actors, removed, created),
        created.finite(),
    ensures
        rebalanced(
            actors,
            removed,
            created,
            settle(balance_queue(actors, removed, created), removed),
        ),
{
    lemma_ascending_exists(created);
    let q = balance_queue(actors, removed, created);
    let dist = settle(q, removed);
    let target = target_count(actors, removed, created);
    let expected = VNODE_COUNT as int / target;
    let remain = VNODE_COUNT as int % target;
    let held = holdings(actors);
    let gone = largest_first(select(held, removed, true));
    let rest = largest_first(select(held, removed, false));
    let made = ascending_of(created);
    let count = made.len() as int;
    let head = head_start(actors, removed, created);
    let g = gone.len() as int;
    let r = rest.len() as int;
    lemma_queue_settles(actors, removed, created);
    lemma_settle(q, removed);
    lemma_select(held, removed, true);
    lemma_select(held, removed, false);
    lemma_select_total(held, removed);
    lemma_select_len(actors, removed);
    lemma_largest_first(select(held, removed, true));
    lemma_largest_first(select(held, removed, false));
    assert(r + made.len() == target);
    assert(forall|i: int| 0 <= i < g ==> #[trigger] q[i] == leaving(gone)[i]);
    assert(forall|i: int|
        g <= i < g + r ==> #[trigger] q[i] == staying(rest, expected, remain, count)[i - g]);
    assert(forall|i: int|
        g + r <= i < q.len() ==> #[trigger] q[i] == arriving(made, expected, remain, head)[i - g - r]);
    assert forall|id: u32|
        (is_actor(actors, id) && !removed.contains(id)) || created.contains(
            id,
        ) implies #[trigger] dist.contains_key(id) && dist[id].len() == VNODE_COUNT && expected
        <= ones(dist[id]) <= expected + 1 by {
        if is_actor(actors, id) && !removed.contains(id) {
            let a = choose|a: int| 0 <= a < actors.len() && (#[trigger] actors[a]).actor_id == id;
            assert(held[a].actor_id == id);
            assert(held.contains(held[a]));
            assert(rest.contains(held[a]));
            let k = rest.index_of(held[a]);
            assert(q[g + k].actor_id == id);
            assert(settled_count(q[g + k]) == expected + one_if(count + k < remain));
        } else {
            assert(made.to_set().contains(id));
            let j = made.index_of(id);
            assert(!is_actor(actors, id));
            assert(q[g + r + j].actor_id == id);
            lemma_ones_zero(q[g + r + j].bits);
            assert(!removed.contains(id));
        }
    }
    assert forall|id: u32| #[trigger] dist.contains_key(id) implies (is_actor(actors, id)
        && !removed.contains(id)) || created.contains(id) by {
        let i = choose|i: int| 0 <= i < q.len() && (#[trigger] q[i]).actor_id == id;
        if i < g {
            assert(gone.contains(gone[i]));
            assert(held.contains(gone[i]));
            assert(actors[held.index_of(gone[i])].actor_id == id);
        } else if i < g + r {
            assert(rest.contains(rest[i - g]));
            assert(held.contains(rest[i - g]));
            assert(actors[held.index_of(rest[i - g])].actor_id == id);
        } else {
            assert(made.contains(made[i - g - r]));
            assert(made.to_set().contains(id));
        }
    }
    assert forall|k: int| 0 <= k < VNODE_COUNT implies #[trigger] owned(dist, k) by {
        assert(held_by_some(held, k));
        let a = choose|a: int| 0 <= a < held.len() && #[trigger] held[a].bits[k];
        assert(held.contains(held[a]));
        if removed.contains(held[a].actor_id) {
            assert(gone.contains(held[a]));
            let j = gone.index_of(held[a]);
            assert(q[j].bits[k]);
        } else {
            assert(rest.contains(held[a]));
            let j = rest.index_of(held[a]);
            assert(q[g + j].bits[k]);
        }
        assert(crate::scale::settle::held_in(q, k));
    }
}

/// No actor that stays both loses and gains virtual nodes: what it holds afterwards is among what it
/// held, or the other way round.
pub proof fn lemma_one_way(
    actors: Seq<CustomActorInfo>,
    removed: Set<u32>,
    created: Set<u32>,
    a: int,
)
    requires
        can_rebalance(actors, removed, created),
        created.finite(),
        0 <= a < actors.len(),
        !removed.contains(actors[a].actor_id),
    ensures
        ({
            let dist = settle(balance_queue(actors, removed, created), removed);
            let before = actors[a].vnode_bitmap->Some_0@;
            let after = dist[actors[a].actor_id];
            dist.contains_key(actors[a].actor_id) && (bits_within(after, before) || bits_within(
                before,
                after,
            ))
        }),
{
    let q = balance_queue(actors, removed, created);
    let held = holdings(actors);
    let gone = largest_first(select(held, removed, true));
    let rest = largest_first(select(held, removed, false));
    lemma_queue_settles(actors, removed, created);
    lemma_rebalanced(actors, removed, created);
    lemma_select(held, removed, false);
    lemma_largest_first(select(held, removed, false));
    assert(is_actor(actors, actors[a].actor_id));
    assert(held.contains(held[a]));
    assert(rest.contains(held[a]));
    let i = gone.len() + rest.index_of(held[a]);
    assert(q[i].actor_id == actors[a].actor_id && q[i].bits == held[a].bits);
    lemma_settle_one_way(q, removed, i);
}

/// The remainder goes to the created actors first: where an actor that stays gets more than the
/// average, every created actor does.
pub proof fn lemma_created_first(
    actors: Seq<CustomActorInfo>,
    removed: Set<u32>,
    created: Set<u32>,
    a: u32,
    c: u32,
)
    requires
        can_rebalance(actors, removed, created),
        created.finite(),
        is_actor(actors, a),
        !removed.contains(a),
        created.contains(c),
    ensures
        ({
            let dist = settle(balance_queue(actors, removed, created), removed);
            let expected = VNODE_COUNT as int / target_count(actors, removed, created);
            ones(dist[a]) > expected ==> ones(dist[c]) == expected + 1
        }),
{
    let q = balance_queue(actors, removed, created);
    let held = holdings(actors);
    let gone = largest_first(select(held, removed, true));
    let rest = largest_first(select(held, removed, false));
    let made = ascending_of(created);
    lemma_ascending_exists(created);
    lemma_queue_settles(actors, removed, created);
    lemma_settle(q, removed);
    lemma_select(held, removed, false);
    lemma_largest_first(select(held, removed, false));
    let k = choose|k: int| 0 <= k < actors.len() && (#[trigger] actors[k]).actor_id == a;
    assert(held[k].actor_id == a);
    assert(held.contains(held[k]));
    assert(rest.contains(held[k]));
    let i = gone.len() + rest.index_of(held[k]);
    assert(q[i].actor_id == a);
    assert(made.to_set().contains(c));
    let j = gone.len() + rest.len() + made.index_of(c);
    assert(q[j].actor_id == c);
    assert(!is_actor(actors, c));
    assert(!removed.contains(c));
    lemma_ones_zero(q[j].bits);
}

proof fn lemma_ones_skip(src: Seq<bool>, a: int, b: int)
    requires
        0 <= a <= b <= src.len(),
    ensures
        ones(src.skip(b)) <= ones(src.skip(a)),
{
    assert(src.skip(a) =~= src.subrange(a, b) + src.skip(b));
    lemma_ones_concat(src.subrange(a, b), src.skip(b));
}

/// Moves the `n` highest virtual nodes of `src` to `dst`.
fn hand_over(src: &mut Balance, dst: &mut Balance, n: i32)
    requires
        0 <= n <= ones(old(src)@.bits),
        old(src)@.bits.len() == VNODE_COUNT,
        old(dst)@.bits.len() == VNODE_COUNT,
        disjoint_bits(old(src)@.bits, old(dst)@.bits),
        -(VNODE_COUNT as int) <= old(src)@.balance <= VNODE_COUNT,
        -(VNODE_COUNT as int) <= old(dst)@.balance <= VNODE_COUNT,
    ensures
        final(src)@ == (Share {
            actor_id: old(src)@.actor_id,
            balance: old(src)@.balance - n,
            bits: without_highest(old(src)@.bits, n as int),
        }),
        final(dst)@ == (Share {
            actor_id: old(dst)@.actor_id,
            balance: old(dst)@.balance + n,
            bits: union_bits(old(dst)@.bits, highest(old(src)@.bits, n as int)),
        }),
{
    let ghost src0 = src@.bits;
    let ghost dst0 = dst@.bits;
    proof {
        lemma_ones_bound(src0);
        assert(src0.skip(VNODE_COUNT as int) =~= Seq::<bool>::empty());
    }
    let mut moved: i32 = 0;
    let mut idx: usize = VNODE_COUNT;
    while idx > 0 && moved < n
        invariant
            idx <= VNODE_COUNT,
            0 <= n <= ones(src0),
            0 <= moved <= n,
            moved == ones(src0.skip(idx as int)),
            src0.len() == VNODE_COUNT,
            dst0.len() == VNODE_COUNT,
            ones(src0) <= VNODE_COUNT,
            disjoint_bits(src0, dst0),
            src.actor_id == old(src).actor_id,
            src.balance == old(src).balance,
            dst.actor_id == old(dst).actor_id,
            dst.balance == old(dst).balance,
            src.builder@.len() == VNODE_COUNT,
            dst.builder@.len() == VNODE_COUNT,
            forall|k: int| 0 <= k < idx ==> #[trigger] src.builder@[k] == src0[k],
            forall|k: int| 0 <= k < idx ==> #[trigger] dst.builder@[k] == dst0[k],
            forall|k: int|
                idx <= k < VNODE_COUNT ==> #[trigger] src.builder@[k] == without_highest(
                    src0,
                    n as int,
                )[k],
            forall|k: int|
                idx <= k < VNODE_COUNT ==> #[trigger] dst.builder@[k] == (dst0[k] || highest(
                    src0,
                    n as int,
                )[k]),
        decreases idx,
    {
        idx = idx - 1;
        proof {
            assert(src0.skip(idx as int) =~= seq![src0[idx as int]] + src0.skip(idx + 1));
            lemma_ones_concat(seq![src0[idx as int]], src0.skip(idx + 1));
            lemma_ones_one(src0[idx as int]);
            assert(!(src0[idx as int] && dst0[idx as int]));
        }
        assert(ones(src0.skip(idx + 1)) == moved);
        assert(!without_highest(src0, n as int)[idx as int]);
        assert(highest(src0, n as int)[idx as int] == src0[idx as int]);
        let ghost src1 = src.builder@;
        let ghost dst1 = dst.builder@;
        if src.builder.is_set(idx) {
            src.builder.set(idx, false);
            dst.builder.set(idx, true);
            moved = moved + 1;
        }
        assert(forall|k: int|
            0 <= k < VNODE_COUNT && k != idx ==> #[trigger] src.builder@[k] == src1[k]);
        assert(forall|k: int|
            0 <= k < VNODE_COUNT && k != idx ==> #[trigger] dst.builder@[k] == dst1[k]);
    }
    proof {
        assert(src0.skip(0) =~= src0);
        assert forall|k: int| 0 <= k < idx implies !highest(src0, n as int)[k] && without_highest(
            src0,
            n as int,
        )[k] == src0[k] by {
            lemma_ones_skip(src0, k + 1, idx as int);
        }
    }
    src.balance = src.balance - n;
    dst.balance = dst.balance + n;
    assert(src@.bits =~= without_highest(src0, n as int));
    assert(dst@.bits =~= union_bits(dst0, highest(src0, n as int)));
}

proof fn lemma_ones_one(b: bool)
    ensures
        ones(seq![b]) == one_if(b),
{
    assert(seq![b].drop_last() =~= Seq::<bool>::empty());
    assert(ones(Seq::<bool>::empty()) == 0);
    assert(seq![b].last() == b);
}

/// An actor and its bitmap.
struct Held {
    actor_id: u32,
    bitmap: Bitmap,
}

impl View for Held {
    type V = Holding;

    closed spec fn view(&self) -> Holding {
        Holding { actor_id: self.actor_id, bits: self.bitmap@ }
    }
}

spec fn held_seq(v: Seq<Held>) -> Seq<Holding> {
    Seq::new(v.len(), |i: int| v[i]@)
}

/// Puts `x` behind the holdings that are at least as large.
fn insert_largest_first(v: &mut Vec<Held>, x: Held)
    ensures
        held_seq(final(v)@) == held_seq(old(v)@).insert(rank(held_seq(old(v)@), x@), x@),
        0 <= rank(held_seq(old(v)@), x@) <= old(v)@.len(),
{
    let count: usize = x.bitmap.count_ones();
    let mut p: usize = v.len();
    let ghost all = held_seq(v@);
    assert(all.take(p as int) =~= all);
    while p > 0 && v[p - 1].bitmap.count_ones() < count
        invariant
            p <= v.len(),
            v@ == old(v)@,
            all == held_seq(v@),
            count == ones(x@.bits),
            rank(all, x@) == rank(all.take(p as int), x@),
        decreases p,
    {
        assert(all.take(p as int).last() == v@[p - 1]@);
        assert(all.take(p as int).drop_last() =~= all.take(p - 1));
        p = p - 1;
    }
    proof {
        if p > 0 {
            assert(all.take(p as int).last() == v@[p - 1]@);
        }
    }
    v.insert(p, x);
    assert(held_seq(v@) =~= all.insert(p as int, x@));
}

/// The actors that are (`inside`), or are not, in `ids`, from the largest holding to the smallest.
fn select_largest_first(
    actors: &Vec<CustomActorInfo>,
    ids: &BTreeSet<u32>,
    inside: bool,
) -> (res: Vec<Held>)
    requires
        forall|i: int| 0 <= i < actors.len() ==> (#[trigger] actors[i]).vnode_bitmap is Some,
    ensures
        held_seq(res@) == largest_first(select(holdings(actors@), ids@, inside)),
{
    let mut res: Vec<Held> = Vec::new();
    let ghost held = holdings(actors@);
    let mut i: usize = 0;
    assert(held.take(0) =~= Seq::<Holding>::empty());
    assert(held_seq(res@) =~= Seq::<Holding>::empty());
    while i < actors.len()
        invariant
            i <= actors.len(),
            held == holdings(actors@),
            held_seq(res@) == largest_first(select(held.take(i as int), ids@, inside)),
            forall|i: int| 0 <= i < actors.len() ==> (#[trigger] actors[i]).vnode_bitmap is Some,
        decreases actors.len() - i,
    {
        let actor = &actors[i];
        assert(held.take(i + 1).drop_last() =~= held.take(i as int));
        assert(held.take(i + 1).last() == held[i as int]);
        if ids.contains(&actor.actor_id) == inside {
            if let Some(bitmap) = &actor.vnode_bitmap {
                let ghost sel = select(held.take(i as int), ids@, inside);
                let x = Held { actor_id: actor.actor_id, bitmap: bitmap.clone() };
                assert(x@ == held[i as int]);
                insert_largest_first(&mut res, x);
                assert(sel.push(held[i as int]).drop_last() =~= sel);
            }
        }
        i = i + 1;
    }
    assert(held.take(i as int) =~= held);
    res
}

/// What the holdings exceed an average by, together.
fn excess(held: &Vec<Held>, average: usize) -> (res: usize)
    requires
        forall|i: int| 0 <= i < held.len() ==> ones((#[trigger] held[i])@.bits) >= average,
        held_total(held_seq(held@)) <= VNODE_COUNT,
    ensures
        res == held_total(held_seq(held@)) - held.len() * average,
{
    let mut sum: usize = 0;
    let mut i: usize = 0;
    let ghost all = held_seq(held@);
    assert(all.take(0) =~= Seq::<Holding>::empty());
    while i < held.len()
        invariant
            i <= held.len(),
            all == held_seq(held@),
            held_total(all) <= VNODE_COUNT,
            forall|i: int| 0 <= i < held.len() ==> ones((#[trigger] held[i])@.bits) >= average,
            sum == held_total(all.take(i as int)) - i * average,
            sum <= VNODE_COUNT,
        decreases held.len() - i,
    {
        let count: usize = held[i].bitmap.count_ones();
        proof {
            assert(all.take(i + 1).drop_last() =~= all.take(i as int));
            assert(all.take(i + 1).last() == held[i as int]@);
            lemma_total_prefix(all, i + 1);
            assert((i + 1) * average == i * average + average) by (nonlinear_arith);
            assert(0 <= i * average) by (nonlinear_arith);
        }
        sum = sum + (count - average);
        i = i + 1;
    }
    assert(all.take(i as int) =~= all);
    sum
}

proof fn lemma_total_prefix(s: Seq<Holding>, n: int)
    requires
        0 <= n <= s.len(),
    ensures
        0 <= held_total(s.take(n)) <= held_total(s),
    decreases s.len(),
{
    if s.len() > 0 {
        lemma_total_prefix(s.drop_last(), if n == s.len() {
            n - 1
        } else {
            n
        });
        if n < s.len() {
            assert(s.drop_last().take(n) =~= s.take(n));
        } else {
            assert(s.take(n) =~= s);
            assert(s.drop_last().take(n - 1) =~= s.drop_last());
        }
    } else {
        assert(s.take(n) =~= s);
    }
}

/// Rebalances virtual nodes over the actors of a hash-distributed fragment, with as much affinity
/// as possible.
///
/// Every actor that stays or is created is to own the average number of virtual nodes, some of them
/// one more: the created actors first, then those that stay. Of the created actors, as many as the leaving
/// ones held virtual nodes above the previous average come first, beginning with the last; then the others,
/// beginning with the first.
/// Actors that leave come first, then those that stay, the largest first, then the created ones;
/// what the actors at the head of this queue have too much goes to the actors at its tail.
///
/// The result is the distribution after scaling, which covers all virtual nodes.
pub fn rebalance_actor_vnode(
    actors: &Vec<CustomActorInfo>,
    actors_to_remove: &BTreeSet<u32>,
    actors_to_create: &BTreeSet<u32>,
) -> (res: BTreeMap<u32, Bitmap>)
    requires
        can_rebalance(actors@, actors_to_remove@, actors_to_create@),
        actors.len() + actors_to_create@.len() <= usize::MAX,
    ensures
        bitmaps(res@) == settle(
            balance_queue(actors@, actors_to_remove@, actors_to_create@),
            actors_to_remove@,
        ),
        rebalanced(actors@, actors_to_remove@, actors_to_create@, bitmaps(res@)),
{
    let made: Vec<u32> = set_to_vec(actors_to_create);
    let ghost held = holdings(actors@);
    let ghost removed_ids = actors_to_remove@;
    proof {
        lemma_select_len(actors@, removed_ids);
        lemma_select_total(held, removed_ids);
        lemma_queue_settles(actors@, removed_ids, actors_to_create@);
        lemma_rebalanced(actors@, removed_ids, actors_to_create@);
        lemma_largest_first(select(held, removed_ids, true));
        lemma_largest_first(select(held, removed_ids, false));
        lemma_select(held, removed_ids, true);
        lemma_held_union(held);
        lemma_ones_bound(held_union(held));
        lemma_total_prefix(select(held, removed_ids, false), 0);
    }
    let target_actor_count: usize = actors.len() - actors_to_remove.len() + actors_to_create.len();
    let (expected, remain) = div_rem(VNODE_COUNT, target_actor_count);
    let gone = select_largest_first(actors, actors_to_remove, true);
    let rest = select_largest_first(actors, actors_to_remove, false);
    let ghost gone_h = held_seq(gone@);
    let ghost rest_h = held_seq(rest@);
    assert(held_by_some(held, 0));
    let (prev_expected, _) = div_rem(VNODE_COUNT, actors.len());
    assert forall|i: int| 0 <= i < gone.len() implies ones((#[trigger] gone[i])@.bits)
        >= prev_expected by {
        assert(gone_h[i] == gone[i]@);
        assert(gone_h.contains(gone_h[i]));
        assert(held.contains(gone_h[i]));
        let a = held.index_of(gone_h[i]);
        assert(removed_ids.contains(actors[a].actor_id));
    }
    let prev_remain: usize = excess(&gone, prev_expected);
    let head: usize = if prev_remain <= made.len() {
        prev_remain
    } else {
        made.len()
    };
    assert(head == head_start(actors@, removed_ids, actors_to_create@)) by {
        made@.unique_seq_to_set();
    }
    let mut v: VecDeque<Balance> = VecDeque::new();
    let ghost q0 = balance_queue(actors@, removed_ids, actors_to_create@);
    let ghost g = gone.len() as int;
    let ghost r = rest.len() as int;
    assert(expected <= VNODE_COUNT) by {
        assert(VNODE_COUNT as int / target_actor_count as int <= VNODE_COUNT) by (nonlinear_arith)
            requires
                target_actor_count > 0,
        ;
    }
    assert(forall|i: int| 0 <= i < g ==> #[trigger] q0[i] == leaving(gone_h)[i]);
    assert(forall|i: int|
        g <= i < g + r ==> #[trigger] q0[i] == staying(
            rest_h,
            expected as int,
            remain as int,
            made.len() as int,
        )[i - g]);
    assert(forall|i: int|
        g + r <= i < q0.len() ==> #[trigger] q0[i] == arriving(
            made@,
            expected as int,
            remain as int,
            head as int,
        )[i - g - r]);
    assert(q0.len() == g + r + made.len());
    assert(shares(v@) =~= q0.take(0));

    let mut i: usize = 0;
    while i < gone.len()
        invariant
            i <= gone.len(),
            gone_h == held_seq(gone@),
            g == gone.len(),
            g <= q0.len(),
            shares(v@) == q0.take(i as int),
            settles(q0, removed_ids),
            forall|i: int| 0 <= i < g ==> #[trigger] q0[i] == leaving(gone_h)[i],
        decreases gone.len() - i,
    {
        let h = &gone[i];
        assert(q0[i as int].bits == h@.bits);
        proof {
            lemma_ones_bound(h@.bits);
        }
        let b = Balance {
            actor_id: h.actor_id,
            balance: h.bitmap.count_ones() as i32,
            builder: h.bitmap.clone(),
        };
        assert(b@ == q0[i as int]);
        let ghost v0 = v@;
        v.push_back(b);
        proof {
            lemma_shares_push(v0, b);
        }
        i = i + 1;
        assert(shares(v@) =~= q0.take(i as int));
    }
    let mut i: usize = 0;
    while i < rest.len()
        invariant
            i <= rest.len(),
            rest_h == held_seq(rest@),
            r == rest.len(),
            g + r <= q0.len(),
            shares(v@) == q0.take(g + i),
            settles(q0, removed_ids),
            0 <= g,
            made.len() + r <= usize::MAX,
            expected <= VNODE_COUNT,
            forall|i: int|
                g <= i < g + r ==> #[trigger] q0[i] == staying(
                    rest_h,
                    expected as int,
                    remain as int,
                    made.len() as int,
                )[i - g],
        decreases rest.len() - i,
    {
        let h = &rest[i];
        assert(q0[g + i].bits == h@.bits);
        proof {
            lemma_ones_bound(h@.bits);
        }
        let extra: i32 = if made.len() + i < remain {
            1
        } else {
            0
        };
        let b = Balance {
            actor_id: h.actor_id,
            balance: h.bitmap.count_ones() as i32 - expected as i32 - extra,
            builder: h.bitmap.clone(),
        };
        assert(b@ == q0[g + i]);
        let ghost v0 = v@;
        v.push_back(b);
        proof {
            lemma_shares_push(v0, b);
        }
        i = i + 1;
        assert(shares(v@) =~= q0.take(g + i));
    }
    let mut j: usize = 0;
    while j < made.len()
        invariant
            j <= made.len(),
            r == rest.len(),
            g + r + made.len() == q0.len(),
            head <= made.len(),
            shares(v@) == q0.take(g + r + j),
            0 <= g,
            made.len() + r <= usize::MAX,
            expected <= VNODE_COUNT,
            forall|i: int|
                g + r <= i < q0.len() ==> #[trigger] q0[i] == arriving(
                    made@,
                    expected as int,
                    remain as int,
                    head as int,
                )[i - g - r],
        decreases made.len() - j,
    {
        let place: usize = if j >= made.len() - head {
            made.len() - 1 - j
        } else {
            head + j
        };
        let extra: i32 = if place < remain {
            1
        } else {
            0
        };
        let b = Balance {
            actor_id: made[j],
            balance: -(expected as i32) - extra,
            builder: Bitmap::zeros(VNODE_COUNT),
        };
        assert(b@ == q0[g + r + j]);
        let ghost v0 = v@;
        v.push_back(b);
        proof {
            lemma_shares_push(v0, b);
        }
        j = j + 1;
        assert(shares(v@) =~= q0.take(g + r + j));
    }
    assert(shares(v@) =~= q0);
    settle_queue(v, actors_to_remove)
}

/// The settled distribution of a queue.
fn settle_queue(queue: VecDeque<Balance>, removed: &BTreeSet<u32>) -> (res: BTreeMap<u32, Bitmap>)
    requires
        settles(shares(queue@), removed@),
    ensures
        bitmaps(res@) == settle(shares(queue@), removed@),
{
    let mut v = queue;
    let ghost q0 = shares(v@);
    let mut result: BTreeMap<u32, Bitmap> = BTreeMap::new();
    assert(settle(q0, removed@).union_prefer_right(bitmaps(result@)) =~= settle(q0, removed@));
    while v.len() > 0
        invariant
            settles(shares(v@), removed@),
            forall|i: int| 0 <= i < v@.len() ==> !result@.contains_key((#[trigger] v@[i])@.actor_id),
            settle(shares(v@), removed@).union_prefer_right(bitmaps(result@)) == settle(
                q0,
                removed@,
            ),
        decreases v@.len(),
    {
        let ghost q = shares(v@);
        let ghost result0 = result@;
        if v.len() == 1 {
            let single = v.pop_front().unwrap();
            assert(q[0] == single@);
            if !removed.contains(&single.actor_id) {
                result.insert(single.actor_id, single.builder);
            }
            proof {
                assert(shares(v@) =~= Seq::<Share>::empty());
                assert(q.drop_last() =~= Seq::<Share>::empty());
                assert(settle(shares(v@), removed@).union_prefer_right(bitmaps(result@)) =~= settle(
                    q,
                    removed@,
                ).union_prefer_right(bitmaps(result0)));
            }
            continue;
        }
        proof {
            lemma_ends(q, removed@);
            lemma_hand_over(q, removed@);
        }
        let ghost v0 = v@;
        let mut src = v.pop_front().unwrap();
        let mut dst = v.pop_back().unwrap();
        let ghost l = v0.len() - 1;
        assert(q.first() == src@ && q.last() == dst@ && q[0] == src@ && q[l] == dst@);
        proof {
            lemma_ones_bound(src@.bits);
            lemma_ones_bound(dst@.bits);
            assert(settled_count(q[0]) >= 0 && settled_count(q[l]) <= VNODE_COUNT);
        }
        let src_abs: i32 = abs(src.balance);
        let dst_abs: i32 = abs(dst.balance);
        let n: i32 = if src_abs <= dst_abs {
            src_abs
        } else {
            dst_abs
        };
        assert(n == handed(q));
        hand_over(&mut src, &mut dst, n);
        assert(src@ == giver(q));
        assert(dst@ == taker(q));
        let ghost mid = shares(v@);
        assert(mid =~= q.subrange(1, l));
        let ghost src_share = src@;
        let ghost dst_share = dst@;
        if src.balance != 0 {
            v.push_front(src);
        } else if !removed.contains(&src.actor_id) {
            result.insert(src.actor_id, src.builder);
        }
        if dst.balance != 0 {
            v.push_back(dst);
        } else if !removed.contains(&dst.actor_id) {
            result.insert(dst.actor_id, dst.builder);
        }
        proof {
            assert(shares(v@) =~= after_hand_over(q));
            let rest = settle(after_hand_over(q), removed@);
            let r1 = bitmaps(result0);
            assert(q[0].actor_id != q[l].actor_id);
            assert(!result0.contains_key(v0[0]@.actor_id));
            assert(!result0.contains_key(v0[l]@.actor_id));
            assert(settle(q, removed@).union_prefer_right(r1) =~= rest.union_prefer_right(
                bitmaps(result@),
            ));
            assert forall|i: int| 0 <= i < v@.len() implies !result@.contains_key(
                (#[trigger] v@[i])@.actor_id,
            ) by {
                let f: int = if src_share.balance != 0 {
                    1
                } else {
                    0
                };
                assert(shares(v@)[i] == v@[i]@);
                if i < f {
                    assert(v@[i]@ == src_share);
                } else if i < f + mid.len() {
                    assert(v@[i]@ == q[i - f + 1]);
                    assert(q[i - f + 1] == v0[i - f + 1]@);
                    assert(q[0].actor_id != q[i - f + 1].actor_id);
                    assert(q[i - f + 1].actor_id != q[l].actor_id);
                } else {
                    assert(v@[i]@ == dst_share);
                }
            }
        }
    }
    assert(shares(v@) =~= Seq::<Share>::empty());
    assert(settle(shares(v@), removed@).union_prefer_right(bitmaps(result@)) =~= bitmaps(result@));
    result
}

} // verus!
