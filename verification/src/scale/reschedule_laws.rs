//! What a reschedule tells its actors, said of the actors and their virtual nodes one by one.
use crate::common::bitmap::disjoint_bits;
use crate::common::collections::{ascending, ascending_of, lemma_ascending_exists, lemma_ascending_len};
use crate::common::worker::WorkerNode;
use crate::scale::actors::{lists_of, owner_among};
use crate::scale::arrange::{inner, nested};
use crate::scale::assemble::{assemble_reschedules, by_worker, changed_bits, first_unowned};
use crate::scale::assemble::{first_unowned_in, merging_downstreams};
use crate::scale::assemble::{sends, sends_to_any, Reschedule};
use crate::scale::context::{dispatchers_of, follows, is_context, sources_of, targets_of};
use crate::scale::context::{with_followers, RescheduleContext};
use crate::scale::links::dispatcher_index;
use crate::scale::model::{ActorState, ActorStatus, DispatcherType, FragmentDistributionType};
use crate::scale::model::{ParallelUnitReschedule, ScaleError, StreamActor, TableFragments, UnitChange};
use crate::scale::ownership::{can_spread, lemma_follower_owns_once, lemma_root_owns_once};
use crate::scale::ownership::owns_once;
use crate::scale::prepare::{actors_in, outcome, PreparedReschedule};
use crate::scale::rebalance::bitmaps;
use crate::scale::relation::{bits_of, copies_agree};
use crate::scale::settle::owned;
use crate::scale::tables::fragments_of;
use std::collections::BTreeMap;
use vstd::prelude::*;

verus! {

broadcast use {vstd::std_specs::btree::group_btree_axioms, vstd::laws_cmp::group_laws_cmp};

/// The virtual nodes that an actor has once the reschedule is carried out: those that it is told, or, where it
/// is told nothing, those that it had.
pub open spec fn bits_after(ctx: &RescheduleContext, reschedule: Reschedule, a: u32) -> Option<Seq<bool>> {
    if reschedule.vnode_bitmap_updates@.contains_key(a) {
        Some(reschedule.vnode_bitmap_updates@[a]@)
    } else if ctx.actor_map@.contains_key(a) {
        match ctx.actor_map@[a].vnode_bitmap {
            Some(own) => Some(own@),
            None => None,
        }
    } else {
        None
    }
}

/// Once a fragment with virtual nodes is rescheduled, every actor has exactly the virtual nodes that were
/// worked out for it. Only actors of the fragment are told, and none that stays and has them already.
pub proof fn lemma_told_what_changes(
    reschedules: &BTreeMap<u32, ParallelUnitReschedule>,
    ctx: &RescheduleContext,
    prepared: PreparedReschedule,
    splits: BTreeMap<u32, BTreeMap<u32, Vec<u64>>>,
    injectable_flags: u32,
    rs: BTreeMap<u32, Reschedule>,
    f: u32,
    a: u32,
)
    requires
        call_ensures(
            assemble_reschedules,
            (reschedules, ctx, prepared, splits, injectable_flags),
            Ok::<BTreeMap<u32, Reschedule>, ScaleError>(rs),
        ),
        rs@.contains_key(f),
        prepared.fragment_actor_bitmap@.contains_key(f),
        prepared.fragment_actors_after_reschedule@.contains_key(f),
    ensures
        ctx.fragment_map@[f].distribution_type == FragmentDistributionType::Hash
            && prepared.fragment_actor_bitmap@[f]@.contains_key(a) ==> bits_after(ctx, rs@[f], a)
            == Some(prepared.fragment_actor_bitmap@[f]@[a]@),
        rs@[f].vnode_bitmap_updates@.contains_key(a) ==> ctx.fragment_map@[f].distribution_type
            == FragmentDistributionType::Hash
            && prepared.fragment_actor_bitmap@[f]@.contains_key(a),
        rs@[f].vnode_bitmap_updates@.contains_key(a)
            && prepared.fragment_actors_after_reschedule@[f]@.contains_key(a)
            && ctx.actor_map@.contains_key(a) ==> !(ctx.actor_map@[a].vnode_bitmap matches Some(own)
            && own@ == prepared.fragment_actor_bitmap@[f]@[a]@),
{
    let r = rs@[f];
    let bits = bits_of(prepared.fragment_actor_bitmap@);
    let places = nested(prepared.fragment_actors_after_reschedule@);
    let told = bitmaps(r.vnode_bitmap_updates@);
    assert(bits.contains_key(f));
    assert(bits[f] == bitmaps(prepared.fragment_actor_bitmap@[f]@));
    assert(told.contains_key(a) <==> r.vnode_bitmap_updates@.contains_key(a));
    assert(bits[f].contains_key(a) <==> prepared.fragment_actor_bitmap@[f]@.contains_key(a));
    if told.contains_key(a) {
        assert(told[a] == r.vnode_bitmap_updates@[a]@);
    }
    if ctx.fragment_map@[f].distribution_type == FragmentDistributionType::Hash {
        assert(told == changed_bits(bits[f], places[f], ctx.actor_map@));
        if bits[f].contains_key(a) {
            assert(bits[f][a] == prepared.fragment_actor_bitmap@[f]@[a]@);
        }
    } else {
        assert(told == Map::<u32, Seq<bool>>::empty());
    }
}

/// The virtual nodes of a fragment are each with one of its actors once the reschedule is carried out: those
/// that an actor is told where it is told any, and those that it had where it is not.
pub open spec fn spread_after(
    ctx: &RescheduleContext,
    reschedule: Reschedule,
    places: Map<u32, u32>,
) -> bool {
    &&& forall|a: u32| #[trigger]
        places.contains_key(a) ==> bits_after(ctx, reschedule, a) is Some && bits_after(
            ctx,
            reschedule,
            a,
        )->Some_0.len() == 256
    &&& forall|a: u32, b: u32, k: int|
        #![trigger bits_after(ctx, reschedule, a)->Some_0[k], bits_after(
            ctx,
            reschedule,
            b,
        )->Some_0[k]]
        places.contains_key(a) && places.contains_key(b) && a != b && 0 <= k < 256 ==> !(bits_after(
            ctx,
            reschedule,
            a,
        )->Some_0[k] && bits_after(ctx, reschedule, b)->Some_0[k])
    &&& forall|k: int| 0 <= k < 256 ==> #[trigger] held_after(ctx, reschedule, places, k)
}

/// Some actor of the fragment has the virtual node once the reschedule is carried out.
pub open spec fn held_after(
    ctx: &RescheduleContext,
    reschedule: Reschedule,
    places: Map<u32, u32>,
    k: int,
) -> bool {
    exists|a: u32|
        places.contains_key(a) && #[trigger] bits_after(ctx, reschedule, a)->Some_0[k]
}

proof fn lemma_spread(
    ctx: &RescheduleContext,
    reschedule: Reschedule,
    places: Map<u32, u32>,
    bits: Map<u32, Seq<bool>>,
)
    requires
        owns_once(places, bits),
        forall|a: u32| #[trigger]
            bits.contains_key(a) ==> bits_after(ctx, reschedule, a) == Some(bits[a]),
    ensures
        spread_after(ctx, reschedule, places),
{
    assert forall|a: u32| #[trigger] places.contains_key(a) implies bits_after(
        ctx,
        reschedule,
        a,
    ) is Some && bits_after(ctx, reschedule, a)->Some_0.len() == 256 by {
        assert(bits.contains_key(a));
    }
    assert forall|a: u32, b: u32, k: int|
        #![trigger bits_after(ctx, reschedule, a)->Some_0[k], bits_after(
            ctx,
            reschedule,
            b,
        )->Some_0[k]]
        places.contains_key(a) && places.contains_key(b) && a != b && 0 <= k < 256 implies !(
    bits_after(ctx, reschedule, a)->Some_0[k] && bits_after(ctx, reschedule, b)->Some_0[k]) by {
        assert(bits.contains_key(a) && bits.contains_key(b));
        assert(disjoint_bits(bits[a], bits[b]));
    }
    assert forall|k: int| 0 <= k < 256 implies #[trigger] held_after(
        ctx,
        reschedule,
        places,
        k,
    ) by {
        assert(owned(bits, k));
        let a = choose|a: u32| bits.contains_key(a) && #[trigger] bits[a][k];
        assert(bits_after(ctx, reschedule, a)->Some_0[k]);
    }
}

/// The virtual nodes of a hash-distributed root that is rescheduled: after it, each is with exactly one of the
/// actors of the fragment.
pub proof fn lemma_root_told(
    reschedules: &BTreeMap<u32, ParallelUnitReschedule>,
    ctx: &RescheduleContext,
    prepared: PreparedReschedule,
    splits: BTreeMap<u32, BTreeMap<u32, Vec<u64>>>,
    injectable_flags: u32,
    rs: BTreeMap<u32, Reschedule>,
    workers: Seq<WorkerNode>,
    tables: Seq<TableFragments>,
    roots: Map<u32, UnitChange>,
    source_flag: u32,
    new_ids: Seq<u32>,
    r: u32,
)
    requires
        call_ensures(
            assemble_reschedules,
            (reschedules, ctx, prepared, splits, injectable_flags),
            Ok::<BTreeMap<u32, Reschedule>, ScaleError>(rs),
        ),
        rs@.contains_key(r),
        is_context(*ctx, workers, tables, roots, source_flag),
        can_spread(workers, tables, roots, new_ids),
        prepared.holds(ctx, outcome(ctx, with_followers(tables, roots), new_ids)),
        prepared.fragment_actor_bitmap@.contains_key(r),
        prepared.fragment_actors_after_reschedule@.contains_key(r),
        roots.contains_key(r),
        ctx.fragment_map@[r].distribution_type == FragmentDistributionType::Hash,
        fragments_of(tables)[r].distribution_type == FragmentDistributionType::Hash,
    ensures
        spread_after(ctx, rs@[r], prepared.fragment_actors_after_reschedule@[r]@),
{
    let o = outcome(ctx, with_followers(tables, roots), new_ids);
    lemma_root_owns_once(ctx, workers, tables, roots, source_flag, new_ids, r);
    let bits = bits_of(prepared.fragment_actor_bitmap@);
    let places = nested(prepared.fragment_actors_after_reschedule@);
    assert(bits.contains_key(r));
    assert(places.contains_key(r));
    assert forall|a: u32| #[trigger] bits[r].contains_key(a) implies bits_after(ctx, rs@[r], a)
        == Some(bits[r][a]) by {
        lemma_told_what_changes(
            reschedules,
            ctx,
            prepared,
            splits,
            injectable_flags,
            rs,
            r,
            a,
        );
    }
    lemma_spread(ctx, rs@[r], places[r], bits[r]);
}

/// The virtual nodes of a fragment that follows a hash-distributed root: after the reschedule, each is with
/// exactly one of the actors of the fragment.
pub proof fn lemma_follower_told(
    reschedules: &BTreeMap<u32, ParallelUnitReschedule>,
    ctx: &RescheduleContext,
    prepared: PreparedReschedule,
    splits: BTreeMap<u32, BTreeMap<u32, Vec<u64>>>,
    injectable_flags: u32,
    rs: BTreeMap<u32, Reschedule>,
    workers: Seq<WorkerNode>,
    tables: Seq<TableFragments>,
    roots: Map<u32, UnitChange>,
    source_flag: u32,
    new_ids: Seq<u32>,
    r: u32,
    f: u32,
)
    requires
        call_ensures(
            assemble_reschedules,
            (reschedules, ctx, prepared, splits, injectable_flags),
            Ok::<BTreeMap<u32, Reschedule>, ScaleError>(rs),
        ),
        rs@.contains_key(f),
        is_context(*ctx, workers, tables, roots, source_flag),
        can_spread(workers, tables, roots, new_ids),
        ({
            let plans = with_followers(tables, roots);
            let o = outcome(ctx, plans, new_ids);
            prepared.holds(ctx, o) && copies_agree(
                plans.dom(),
                dispatchers_of(tables),
                sources_of(tables),
                targets_of(tables),
                o.places,
                o.bits,
            )
        }),
        prepared.fragment_actor_bitmap@.contains_key(f),
        prepared.fragment_actors_after_reschedule@.contains_key(f),
        roots.contains_key(r),
        follows(tables, r, f),
        fragments_of(tables)[r].distribution_type == FragmentDistributionType::Hash,
        ctx.fragment_map@[f].distribution_type == FragmentDistributionType::Hash,
    ensures
        spread_after(ctx, rs@[f], prepared.fragment_actors_after_reschedule@[f]@),
{
    lemma_follower_owns_once(ctx, workers, tables, roots, source_flag, new_ids, r, f);
    let bits = bits_of(prepared.fragment_actor_bitmap@);
    let places = nested(prepared.fragment_actors_after_reschedule@);
    assert(bits.contains_key(f));
    assert(places.contains_key(f));
    assert forall|a: u32| #[trigger] bits[f].contains_key(a) implies bits_after(ctx, rs@[f], a)
        == Some(bits[f][a]) by {
        lemma_told_what_changes(
            reschedules,
            ctx,
            prepared,
            splits,
            injectable_flags,
            rs,
            f,
            a,
        );
    }
    lemma_spread(ctx, rs@[f], places[f], bits[f]);
}

proof fn lemma_by_worker(ids: Seq<u32>, units: Map<u32, u32>, owners: Map<u32, u32>, w: u32, a: u32)
    requires
        ids.no_duplicates(),
    ensures
        ({
            let m = by_worker(ids, units, owners);
            &&& m.contains_key(w) ==> m[w].no_duplicates() && m[w].len() > 0
            &&& m.contains_key(w) && m[w].contains(a) <==> ids.contains(a) && owners[units[a]] == w
        }),
    decreases ids.len(),
{
    if ids.len() > 0 {
        let front = ids.drop_last();
        let last = ids.last();
        lemma_by_worker(front, units, owners, w, a);
        lemma_by_worker(front, units, owners, w, last);
        let m = by_worker(front, units, owners);
        let now = by_worker(ids, units, owners);
        assert(ids.contains(a) <==> front.contains(a) || a == last) by {
            if ids.contains(a) {
                let i = ids.index_of(a);
                if i < front.len() {
                    assert(front[i] == a);
                }
            }
            if front.contains(a) {
                assert(ids[front.index_of(a)] == a);
            }
            assert(ids[ids.len() - 1] == last);
        }
        assert(!front.contains(last)) by {
            if front.contains(last) {
                let i = front.index_of(last);
                assert(ids[i] == ids[ids.len() - 1]);
            }
        }
        if owners[units[last]] == w {
            let before = if m.contains_key(w) {
                m[w]
            } else {
                Seq::empty()
            };
            assert(now[w] == before.push(last));
            assert(now[w].contains(a) <==> before.contains(a) || a == last) by {
                if before.contains(a) {
                    assert(now[w][before.index_of(a)] == a);
                }
                assert(now[w][before.len() as int] == last);
            }
        }
    } else {
        assert(!ids.contains(a));
    }
}

/// The actors that come and go: each that was worked out to come is added once, at the worker that has its
/// parallel unit, and comes with its description, inactive and on that unit; those that go are those that were
/// worked out to go.
pub proof fn lemma_come_and_go(
    reschedules: &BTreeMap<u32, ParallelUnitReschedule>,
    ctx: &RescheduleContext,
    prepared: PreparedReschedule,
    splits: BTreeMap<u32, BTreeMap<u32, Vec<u64>>>,
    injectable_flags: u32,
    rs: BTreeMap<u32, Reschedule>,
    f: u32,
    a: u32,
    w: u32,
)
    requires
        call_ensures(
            assemble_reschedules,
            (reschedules, ctx, prepared, splits, injectable_flags),
            Ok::<BTreeMap<u32, Reschedule>, ScaleError>(rs),
        ),
        rs@.contains_key(f),
        prepared.fragment_actors_to_create@.contains_key(f)
            ==> prepared.new_created_actors@.contains_key(f),
    ensures
        ({
            let r = rs@[f];
            let create = prepared.fragment_actors_to_create@;
            let remove = prepared.fragment_actors_to_remove@;
            let owners = ctx.parallel_unit_id_to_worker_id@;
            let comes = create.contains_key(f) && create[f]@.contains_key(a);
            &&& r.removed_actors@.contains(a) <==> remove.contains_key(f)
                && remove[f]@.contains_key(a)
            &&& r.added_actors@.contains_key(w) && r.added_actors@[w]@.contains(a) <==> comes
                && owners[create[f]@[a]] == w
            &&& r.added_actors@.contains_key(w) ==> r.added_actors@[w]@.no_duplicates()
                && r.added_actors@[w]@.len() > 0
            &&& comes <==> exists|i: int|
                0 <= i < r.newly_created_actors@.len() && is_start_of(
                    #[trigger] r.newly_created_actors@[i],
                    prepared.new_created_actors@[f]@[a],
                    create[f]@[a],
                    owners[create[f]@[a]],
                ) && came_as(create[f]@, a, i)
            &&& create.contains_key(f) ==> r.newly_created_actors@.len() == create[f]@.dom().len()
            &&& !create.contains_key(f) ==> r.newly_created_actors@.len() == 0
        }),
{
    let r = rs@[f];
    let create = nested(prepared.fragment_actors_to_create@);
    let owners = ctx.parallel_unit_id_to_worker_id@;
    let units = inner(create, f);
    assert(create.contains_key(f) <==> prepared.fragment_actors_to_create@.contains_key(f));
    if create.contains_key(f) {
        assert(units == prepared.fragment_actors_to_create@[f]@);
    }
    assert(units.dom().finite());
    lemma_ascending_exists(units.dom());
    let ids = ascending_of(units.dom());
    lemma_ascending_len(ids);
    lemma_by_worker(ids, units, owners, w, a);
    assert(ids.contains(a) <==> units.contains_key(a)) by {
        assert(ids.to_set().contains(a) <==> units.dom().contains(a));
    }
    let lists = lists_of(r.added_actors@);
    assert(lists.contains_key(w) <==> r.added_actors@.contains_key(w));
    if lists.contains_key(w) {
        assert(lists[w] == r.added_actors@[w]@);
    }
    let actors = actors_in(prepared.new_created_actors@);
    let remove = nested(prepared.fragment_actors_to_remove@);
    assert(remove.contains_key(f) <==> prepared.fragment_actors_to_remove@.contains_key(f));
    if create.contains_key(f) && units.contains_key(a) {
        let i = ids.index_of(a);
        assert(actors[f] == prepared.new_created_actors@[f]@);
        assert(r.newly_created_actors@[i].0 == actors[f][a]);
        assert(came_as(units, a, i));
        assert(is_start_of(
            r.newly_created_actors@[i],
            prepared.new_created_actors@[f]@[a],
            units[a],
            owners[units[a]],
        ));
    }
}

/// The actor is the one at the place among the given ones in ascending order.
pub open spec fn came_as(units: Map<u32, u32>, a: u32, i: int) -> bool {
    let ids = ascending_of(units.dom());
    units.contains_key(a) && 0 <= i < ids.len() && ids[i] == a
}

/// The actor with where it starts: on the given parallel unit of the given worker, and not active yet.
pub open spec fn is_start_of(
    placed: (StreamActor, ActorStatus),
    actor: StreamActor,
    unit: u32,
    worker: u32,
) -> bool {
    &&& placed.0 == actor
    &&& placed.1.state == ActorState::Inactive
    &&& match placed.1.parallel_unit {
        Some(p) => p.id == unit && p.worker_node_id == worker,
        None => false,
    }
}

proof fn lemma_owner_among(ids: Seq<u32>, bits: Map<u32, Seq<bool>>, k: int)
    ensures
        match owner_among(ids, bits, k) {
            Some(a) => ids.contains(a) && bits[a][k],
            None => forall|i: int| 0 <= i < ids.len() ==> !bits[#[trigger] ids[i]][k],
        },
    decreases ids.len(),
{
    if ids.len() > 0 {
        let front = ids.drop_last();
        lemma_owner_among(front, bits, k);
        assert(ids[ids.len() - 1] == ids.last());
        if !bits[ids.last()][k] {
            match owner_among(front, bits, k) {
                Some(a) => {
                    assert(ids[front.index_of(a)] == a);
                },
                None => {
                    assert forall|i: int| 0 <= i < ids.len() implies !bits[#[trigger] ids[i]][k] by {
                        if i < front.len() {
                            assert(front[i] == ids[i]);
                        }
                    }
                },
            }
        }
    }
}

/// Some upstream fragment sends to the fragment by hash.
pub open spec fn reached_by_hash(ctx: &RescheduleContext, f: u32) -> bool {
    let fragment = ctx.fragment_map@[f];
    exists|i: int|
        0 <= i < fragment.upstream_fragment_ids@.len() && ctx.fragment_dispatcher_map@.contains_key(
            #[trigger] fragment.upstream_fragment_ids@[i],
        ) && ctx.fragment_dispatcher_map@[fragment.upstream_fragment_ids@[i]]@.contains_key(
            fragment.fragment_id,
        )
            && ctx.fragment_dispatcher_map@[fragment.upstream_fragment_ids@[i]]@[fragment.fragment_id]
            == DispatcherType::Hash
}

/// Upstream dispatchers are told owners where a fragment with virtual nodes is reached by hash, and only there.
/// A virtual node that some actor owns is told to go to an actor that owns it; where all actors are on one
/// parallel unit, all go to the one with the largest id.
pub proof fn lemma_told_owners(
    reschedules: &BTreeMap<u32, ParallelUnitReschedule>,
    ctx: &RescheduleContext,
    prepared: PreparedReschedule,
    splits: BTreeMap<u32, BTreeMap<u32, Vec<u64>>>,
    injectable_flags: u32,
    rs: BTreeMap<u32, Reschedule>,
    f: u32,
    k: int,
    a: u32,
    b: u32,
)
    requires
        call_ensures(
            assemble_reschedules,
            (reschedules, ctx, prepared, splits, injectable_flags),
            Ok::<BTreeMap<u32, Reschedule>, ScaleError>(rs),
        ),
        rs@.contains_key(f),
        prepared.fragment_actor_bitmap@.contains_key(f),
        prepared.fragment_actors_after_reschedule@.contains_key(f),
        0 <= k < 256,
        prepared.fragment_actors_after_reschedule@[f]@.contains_key(a),
        prepared.fragment_actors_after_reschedule@[f]@.contains_key(b),
    ensures
        ({
            let own = prepared.fragment_actor_bitmap@[f]@;
            let places = prepared.fragment_actors_after_reschedule@[f]@;
            let told = rs@[f].upstream_dispatcher_mapping;
            &&& told is Some <==> ctx.fragment_map@[f].distribution_type
                == FragmentDistributionType::Hash && reached_by_hash(ctx, f)
            &&& told is Some ==> told->Some_0.owners@.len() == 256
            &&& told is Some && places[a] != places[b] && (exists|c: u32| #[trigger]
                own.contains_key(c) && own[c]@[k]) ==> own.contains_key(
                told->Some_0.owners@[k],
            ) && own[told->Some_0.owners@[k]]@[k]
            &&& told is Some && (forall|c: u32, d: u32|
                #![trigger places.contains_key(c), places.contains_key(d)]
                places.contains_key(c) && places.contains_key(d) ==> places[c] == places[d])
                ==> places.contains_key(told->Some_0.owners@[k]) && a <= told->Some_0.owners@[k]
        }),
{
    let r = rs@[f];
    let fragment = ctx.fragment_map@[f];
    let index = dispatcher_index(ctx.fragment_dispatcher_map@);
    let places = nested(prepared.fragment_actors_after_reschedule@)[f];
    let bits = bits_of(prepared.fragment_actor_bitmap@)[f];
    let own = prepared.fragment_actor_bitmap@[f]@;
    assert(nested(prepared.fragment_actors_after_reschedule@).contains_key(f));
    assert(bits_of(prepared.fragment_actor_bitmap@).contains_key(f));
    assert(places == prepared.fragment_actors_after_reschedule@[f]@);
    assert(bits == bitmaps(own));
    assert(forall|up: u32| #[trigger]
        index.contains_key(up) <==> ctx.fragment_dispatcher_map@.contains_key(up));
    assert(crate::scale::assemble::hash_in(fragment, index) <==> reached_by_hash(ctx, f)) by {
        if reached_by_hash(ctx, f) {
            let i = choose|i: int|
                0 <= i < fragment.upstream_fragment_ids@.len()
                    && ctx.fragment_dispatcher_map@.contains_key(
                    #[trigger] fragment.upstream_fragment_ids@[i],
                ) && ctx.fragment_dispatcher_map@[fragment.upstream_fragment_ids@[i]]@.contains_key(
                    fragment.fragment_id,
                )
                    && ctx.fragment_dispatcher_map@[fragment.upstream_fragment_ids@[i]]@[fragment.fragment_id]
                    == DispatcherType::Hash;
            let up = fragment.upstream_fragment_ids@[i];
            assert(index.contains_key(up));
            assert(crate::scale::assemble::sends_by_hash(
                index,
                fragment.upstream_fragment_ids@[i],
                fragment.fragment_id,
            ));
        }
        if crate::scale::assemble::hash_in(fragment, index) {
            let i = choose|i: int|
                0 <= i < fragment.upstream_fragment_ids@.len()
                    && crate::scale::assemble::sends_by_hash(
                    index,
                    #[trigger] fragment.upstream_fragment_ids@[i],
                    fragment.fragment_id,
                );
            assert(index.contains_key(fragment.upstream_fragment_ids@[i]));
        }
    }
    assert(bits.dom() =~= own.dom());
    assert(bits.dom().finite());
    lemma_ascending_exists(bits.dom());
    lemma_ascending_exists(places.dom());
    let ids = ascending_of(bits.dom());
    lemma_owner_among(ids, bits, k);
    if exists|c: u32| #[trigger] own.contains_key(c) && own[c]@[k] {
        let c = choose|c: u32| #[trigger] own.contains_key(c) && own[c]@[k];
        assert(ids.to_set().contains(c));
        let i = ids.index_of(c);
        assert(bits[ids[i]][k]);
        let owner = owner_among(ids, bits, k)->Some_0;
        assert(ids.to_set().contains(owner));
        assert(own.contains_key(owner) && own[owner]@[k]);
    }
    let all = ascending_of(places.dom());
    assert(all.to_set().contains(a));
    let i = all.index_of(a);
    assert(all.to_set().contains(all.last())) by {
        assert(all[all.len() - 1] == all.last());
    }
    assert(a <= all.last());
}

proof fn lemma_merging(fs: Seq<u32>, types: Map<u32, DispatcherType>, d: u32)
    requires
        ascending(fs),
    ensures
        ascending(merging_downstreams(fs, types)),
        merging_downstreams(fs, types).contains(d) <==> fs.contains(d) && types[d]
            != DispatcherType::NoShuffle,
        fs.len() > 0 ==> forall|i: int|
            0 <= i < merging_downstreams(fs, types).len() ==> merging_downstreams(fs, types)[i]
                <= fs.last(),
    decreases fs.len(),
{
    if fs.len() > 0 {
        let front = fs.drop_last();
        lemma_merging(front, types, d);
        let before = merging_downstreams(front, types);
        let now = merging_downstreams(fs, types);
        assert(fs[fs.len() - 1] == fs.last());
        if front.len() > 0 {
            assert(front.last() == fs[fs.len() - 2]);
        }
        assert(fs.contains(d) <==> front.contains(d) || d == fs.last()) by {
            if fs.contains(d) {
                let i = fs.index_of(d);
                if i < front.len() {
                    assert(front[i] == d);
                }
            }
            if front.contains(d) {
                assert(fs[front.index_of(d)] == d);
            }
        }
        if types[fs.last()] != DispatcherType::NoShuffle {
            assert(now == before.push(fs.last()));
            if before.contains(d) {
                assert(now[before.index_of(d)] == d);
            }
            assert(now[before.len() as int] == fs.last());
            if front.len() == 0 {
                assert(before.len() == 0);
            }
        }
    } else {
        assert(!merging_downstreams(fs, types).contains(d));
    }
}

/// Who is told of a reschedule: the downstream fragments that do not take the rows one to one, and the upstream
/// dispatchers that do not send one to one, each once.
pub proof fn lemma_neighbours_told(
    reschedules: &BTreeMap<u32, ParallelUnitReschedule>,
    ctx: &RescheduleContext,
    prepared: PreparedReschedule,
    splits: BTreeMap<u32, BTreeMap<u32, Vec<u64>>>,
    injectable_flags: u32,
    rs: BTreeMap<u32, Reschedule>,
    f: u32,
    d: u32,
    up: u32,
    dispatcher: u64,
)
    requires
        call_ensures(
            assemble_reschedules,
            (reschedules, ctx, prepared, splits, injectable_flags),
            Ok::<BTreeMap<u32, Reschedule>, ScaleError>(rs),
        ),
        rs@.contains_key(f),
    ensures
        ({
            let r = rs@[f];
            let types = ctx.fragment_dispatcher_map@;
            let fragment = ctx.fragment_map@[f];
            let ups = ctx.upstream_dispatchers@;
            &&& r.downstream_fragment_ids@.contains(d) <==> types.contains_key(f)
                && types[f]@.contains_key(d) && types[f]@[d] != DispatcherType::NoShuffle
            &&& forall|i: int, j: int|
                0 <= i < j < r.downstream_fragment_ids@.len() ==> r.downstream_fragment_ids@[i]
                    < r.downstream_fragment_ids@[j]
            &&& r.upstream_fragment_dispatcher_ids@.contains((up, dispatcher)) <==> exists|
                i: int,
                k: int,
            |
                0 <= i < fragment.actors@.len() && ups.contains_key(
                    fragment.actors@[i].actor_id,
                ) && 0 <= k < ups[fragment.actors@[i].actor_id]@.len() && {
                    let entry = #[trigger] ups[fragment.actors@[i].actor_id]@[k];
                    entry.0 == up && entry.1 == dispatcher && entry.2 != DispatcherType::NoShuffle
                }
            &&& forall|i: int, j: int|
                0 <= i < j < r.upstream_fragment_dispatcher_ids@.len() ==> {
                    let x = #[trigger] r.upstream_fragment_dispatcher_ids@[i];
                    let y = #[trigger] r.upstream_fragment_dispatcher_ids@[j];
                    x.0 < y.0 || x.0 == y.0 && x.1 < y.1
                }
            &&& r.injectable == ((fragment.fragment_type_mask & injectable_flags) != 0)
            &&& splits@.contains_key(f) ==> r.actor_splits@ == splits@[f]@
            &&& !splits@.contains_key(f) ==> r.actor_splits@.dom() =~= Set::empty()
        }),
{
    let r = rs@[f];
    let index = dispatcher_index(ctx.fragment_dispatcher_map@);
    let fragment = ctx.fragment_map@[f];
    let ups = ctx.upstream_dispatchers@;
    assert(index.contains_key(f) <==> ctx.fragment_dispatcher_map@.contains_key(f));
    if index.contains_key(f) {
        assert(index[f] == ctx.fragment_dispatcher_map@[f]@);
        lemma_ascending_exists(index[f].dom());
        let fs = ascending_of(index[f].dom());
        lemma_merging(fs, index[f], d);
        assert(fs.to_set().contains(d) <==> index[f].contains_key(d));
    } else {
        assert(!r.downstream_fragment_ids@.contains(d));
    }
    if r.upstream_fragment_dispatcher_ids@.contains((up, dispatcher)) {
        assert(sends_to_any(fragment.actors@, ups, up, dispatcher));
        let i = choose|i: int|
            0 <= i < fragment.actors@.len() && sends(
                ups,
                (#[trigger] fragment.actors@[i]).actor_id,
                up,
                dispatcher,
            );
        let id = fragment.actors@[i].actor_id;
        let k = choose|k: int|
            0 <= k < ups[id]@.len() && (#[trigger] ups[id]@[k]).0 == up && ups[id]@[k].1
                == dispatcher && ups[id]@[k].2 != DispatcherType::NoShuffle;
        assert(ups[fragment.actors@[i].actor_id]@[k].0 == up);
    }
    if exists|i: int, k: int|
        0 <= i < fragment.actors@.len() && ups.contains_key(fragment.actors@[i].actor_id) && 0 <= k
            < ups[fragment.actors@[i].actor_id]@.len() && {
            let entry = #[trigger] ups[fragment.actors@[i].actor_id]@[k];
            entry.0 == up && entry.1 == dispatcher && entry.2 != DispatcherType::NoShuffle
        } {
        let (i, k) = choose|i: int, k: int|
            0 <= i < fragment.actors@.len() && ups.contains_key(fragment.actors@[i].actor_id) && 0
                <= k < ups[fragment.actors@[i].actor_id]@.len() && {
                let entry = #[trigger] ups[fragment.actors@[i].actor_id]@[k];
                entry.0 == up && entry.1 == dispatcher && entry.2 != DispatcherType::NoShuffle
            };
        assert(sends(ups, fragment.actors@[i].actor_id, up, dispatcher));
        assert(sends_to_any(fragment.actors@, ups, up, dispatcher));
    }
}

proof fn lemma_unowned(ids: Seq<u32>, units: Map<u32, u32>, owners: Map<u32, u32>)
    ensures
        match first_unowned(ids, units, owners) {
            Some(u) => !owners.contains_key(u) && exists|i: int|
                0 <= i < ids.len() && units[#[trigger] ids[i]] == u,
            None => forall|i: int|
                0 <= i < ids.len() ==> owners.contains_key(units[#[trigger] ids[i]]),
        },
    decreases ids.len(),
{
    if ids.len() > 0 {
        let rest = ids.skip(1);
        lemma_unowned(rest, units, owners);
        if owners.contains_key(units[ids[0]]) {
            match first_unowned(rest, units, owners) {
                Some(u) => {
                    let i = choose|i: int| 0 <= i < rest.len() && units[#[trigger] rest[i]] == u;
                    assert(units[ids[i + 1]] == u);
                },
                None => {
                    assert forall|i: int| 0 <= i < ids.len() implies owners.contains_key(
                        units[#[trigger] ids[i]],
                    ) by {
                        if i > 0 {
                            assert(rest[i - 1] == ids[i]);
                        }
                    }
                },
            }
        } else {
            assert(units[ids[0]] == first_unowned(ids, units, owners)->Some_0);
        }
    }
}

proof fn lemma_unowned_in(
    fs: Seq<u32>,
    create: Map<u32, BTreeMap<u32, u32>>,
    owners: Map<u32, u32>,
)
    ensures
        match first_unowned_in(fs, nested(create), owners) {
            Some(u) => !owners.contains_key(u) && exists|i: int, a: u32|
                0 <= i < fs.len() && create.contains_key(fs[i]) && create[fs[i]]@.contains_key(a)
                    && #[trigger] create[fs[i]]@[a] == u,
            None => forall|i: int, a: u32|
                0 <= i < fs.len() && create.contains_key(fs[i]) && create[fs[i]]@.contains_key(a)
                    ==> owners.contains_key(#[trigger] create[fs[i]]@[a]),
        },
    decreases fs.len(),
{
    if fs.len() > 0 {
        let rest = fs.skip(1);
        lemma_unowned_in(rest, create, owners);
        let all = nested(create);
        let units = inner(all, fs[0]);
        assert(all.contains_key(fs[0]) <==> create.contains_key(fs[0]));
        assert(units.dom().finite());
        lemma_ascending_exists(units.dom());
        let ids = ascending_of(units.dom());
        lemma_unowned(ids, units, owners);
        match first_unowned(ids, units, owners) {
            Some(u) => {
                let j = choose|j: int| 0 <= j < ids.len() && units[#[trigger] ids[j]] == u;
                assert(ids.to_set().contains(ids[j]));
                assert(create.contains_key(fs[0]));
                assert(create[fs[0]]@[ids[j]] == u);
            },
            None => match first_unowned_in(rest, all, owners) {
                Some(u) => {
                    let (i, a) = choose|i: int, a: u32|
                        0 <= i < rest.len() && create.contains_key(rest[i])
                            && create[rest[i]]@.contains_key(a) && #[trigger] create[rest[i]]@[a]
                            == u;
                    assert(create[fs[i + 1]]@[a] == u);
                },
                None => {
                    assert forall|i: int, a: u32|
                        0 <= i < fs.len() && create.contains_key(fs[i])
                            && create[fs[i]]@.contains_key(a) implies owners.contains_key(
                        #[trigger] create[fs[i]]@[a],
                    ) by {
                        if i > 0 {
                            assert(owners.contains_key(create[rest[i - 1]]@[a]));
                        } else {
                            assert(ids.to_set().contains(a));
                            let j = ids.index_of(a);
                            assert(owners.contains_key(units[ids[j]]));
                        }
                    }
                },
            },
        }
    }
}

/// A reschedule is refused only where an actor is to come to a parallel unit that belongs to no worker, and it
/// is that unit that is named; where there is no such unit, every fragment gets its reschedule.
pub proof fn lemma_refused_without_worker(
    reschedules: &BTreeMap<u32, ParallelUnitReschedule>,
    ctx: &RescheduleContext,
    prepared: PreparedReschedule,
    splits: BTreeMap<u32, BTreeMap<u32, Vec<u64>>>,
    injectable_flags: u32,
    res: Result<BTreeMap<u32, Reschedule>, ScaleError>,
)
    requires
        call_ensures(
            assemble_reschedules,
            (reschedules, ctx, prepared, splits, injectable_flags),
            res,
        ),
    ensures
        ({
            let create = prepared.fragment_actors_to_create@;
            let owners = ctx.parallel_unit_id_to_worker_id@;
            match res {
                Ok(rs) => {
                    &&& rs@.dom() =~= reschedules@.dom()
                    &&& forall|f: u32, a: u32|
                        reschedules@.contains_key(f) && create.contains_key(f)
                            && create[f]@.contains_key(a) ==> owners.contains_key(
                            #[trigger] create[f]@[a],
                        )
                },
                Err(ScaleError::ParallelUnitNotFound { parallel_unit_id }) => {
                    &&& !owners.contains_key(parallel_unit_id)
                    &&& exists|f: u32, a: u32|
                        reschedules@.contains_key(f) && create.contains_key(f)
                            && create[f]@.contains_key(a) && #[trigger] create[f]@[a]
                            == parallel_unit_id
                },
                Err(_) => false,
            }
        }),
{
    let create = prepared.fragment_actors_to_create@;
    let owners = ctx.parallel_unit_id_to_worker_id@;
    lemma_ascending_exists(reschedules@.dom());
    let fs = ascending_of(reschedules@.dom());
    lemma_unowned_in(fs, create, owners);
    match res {
        Ok(rs) => {
            assert forall|f: u32, a: u32|
                reschedules@.contains_key(f) && create.contains_key(f) && create[f]@.contains_key(
                    a,
                ) implies owners.contains_key(#[trigger] create[f]@[a]) by {
                assert(fs.to_set().contains(f));
                let i = fs.index_of(f);
                assert(owners.contains_key(create[fs[i]]@[a]));
            }
        },
        Err(_) => {
            let u = first_unowned_in(fs, nested(create), owners)->Some_0;
            let (i, a) = choose|i: int, a: u32|
                0 <= i < fs.len() && create.contains_key(fs[i]) && create[fs[i]]@.contains_key(a)
                    && #[trigger] create[fs[i]]@[a] == u;
            assert(fs.to_set().contains(fs[i]));
            assert(create[fs[i]]@[a] == u);
        },
    }
}

} // verus!
