//! That the virtual nodes of a fragment are with its actors after a reschedule, each with one.
use crate::common::bitmap::{disjoint_bits, VNODE_COUNT};
use crate::common::collections::{ascending_of, lemma_ascending_exists};
use crate::common::worker::WorkerNode;
use crate::scale::accepted::{accepted, evenly_owned, lemma_accepted_apart, lemma_accepted_places};
use crate::scale::accepted::{lemma_accepted_rebalances, lemma_planned, lemma_root_accepted};
use crate::scale::accepted::{lemma_follower_units, lemma_root_of, places_after};
use crate::scale::alignment::{apart_on_units, lemma_actors_change, lemma_units_after};
use crate::scale::arrange::inner;
use crate::scale::context::{dispatchers_of, follows, is_context, lemma_completed, sources_of};
use crate::scale::context::{followers, targets_of, with_followers, RescheduleContext};
use crate::scale::counterparts::{lemma_actor_at, lemma_copied, lemma_follower_bits};
use crate::scale::model::{DispatcherType, FragmentDistributionType, TableFragments, UnitChange};
use crate::scale::prepare::outcome;
use crate::scale::rebalance::{balance_queue, lemma_rebalanced, rebalanced};
use crate::scale::relation::{actor_at, add_followers, aligned, all_bits, copies_agree};
use crate::scale::relation::{follower_bits, inner_bits, is_root, root_bits};
use crate::scale::settle::{no_overlap, owned, settle};
use crate::scale::tables::{fragments_of, statuses_of};
use vstd::prelude::*;

verus! {

/// Exactly the actors of the fragment hold virtual nodes, and each virtual node is with one of them.
pub open spec fn owns_once(places: Map<u32, u32>, bits: Map<u32, Seq<bool>>) -> bool {
    &&& bits.dom() == places.dom()
    &&& forall|a: u32| #[trigger] bits.contains_key(a) ==> bits[a].len() == VNODE_COUNT
    &&& no_overlap(bits)
    &&& forall|k: int| 0 <= k < VNODE_COUNT ==> #[trigger] owned(bits, k)
}

/// What is known of a fragment is kept when its followers are entered.
proof fn lemma_followers_kept(
    bits: Map<u32, Map<u32, Seq<bool>>>,
    root: u32,
    fs: Seq<u32>,
    places: Map<u32, Map<u32, u32>>,
    f: u32,
)
    requires
        bits.contains_key(f),
    ensures
        add_followers(bits, root, fs, places).contains_key(f),
        add_followers(bits, root, fs, places)[f] == bits[f],
    decreases fs.len(),
{
    if fs.len() > 0 {
        lemma_followers_kept(bits, root, fs.drop_last(), places, f);
    }
}

/// What is known of a fragment is kept when the followers of all roots are entered.
proof fn lemma_bits_kept(
    ids: Seq<u32>,
    bits: Map<u32, Map<u32, Seq<bool>>>,
    index: Map<u32, Map<u32, DispatcherType>>,
    sources: Set<u32>,
    targets: Set<u32>,
    places: Map<u32, Map<u32, u32>>,
    f: u32,
)
    requires
        bits.contains_key(f),
    ensures
        all_bits(ids, bits, index, sources, targets, places).contains_key(f),
        all_bits(ids, bits, index, sources, targets, places)[f] == bits[f],
    decreases ids.len(),
{
    if ids.len() > 0 {
        lemma_bits_kept(ids.drop_last(), bits, index, sources, targets, places, f);
        let m = all_bits(ids.drop_last(), bits, index, sources, targets, places);
        lemma_followers_kept(
            m,
            ids.last(),
            ascending_of(followers(index, targets, ids.last())),
            places,
            f,
        );
    }
}

/// What is needed for the virtual nodes to be spread anew: the reschedule passes the checks, and the virtual
/// nodes are evenly owned before.
pub open spec fn can_spread(
    workers: Seq<WorkerNode>,
    tables: Seq<TableFragments>,
    roots: Map<u32, UnitChange>,
    new_ids: Seq<u32>,
) -> bool {
    &&& accepted(workers, tables, roots, new_ids)
    &&& evenly_owned(tables)
    &&& forall|f: u32| #[trigger]
        fragments_of(tables).contains_key(f) ==> fragments_of(tables)[f].actors@.len()
            + new_ids.len() <= usize::MAX
}

/// The virtual nodes of a hash-distributed root are spread over its actors, evenly but for one, and
/// each has one owner.
pub proof fn lemma_root_owns_once(
    ctx: &RescheduleContext,
    workers: Seq<WorkerNode>,
    tables: Seq<TableFragments>,
    roots: Map<u32, UnitChange>,
    source_flag: u32,
    new_ids: Seq<u32>,
    r: u32,
)
    requires
        is_context(*ctx, workers, tables, roots, source_flag),
        can_spread(workers, tables, roots, new_ids),
        roots.contains_key(r),
        fragments_of(tables)[r].distribution_type == FragmentDistributionType::Hash,
    ensures
        ({
            let o = outcome(ctx, with_followers(tables, roots), new_ids);
            &&& rebalanced(
                fragments_of(tables)[r].actors@,
                inner(o.to_remove, r).dom(),
                inner(o.to_create, r).dom(),
                inner_bits(o.bits, r),
            )
            &&& owns_once(o.places[r], inner_bits(o.bits, r))
        }),
{
    let plans = with_followers(tables, roots);
    let o = outcome(ctx, plans, new_ids);
    let actors = fragments_of(tables)[r].actors@;
    let removed = inner(o.to_remove, r).dom();
    let created = inner(o.to_create, r).dom();
    lemma_root_accepted(workers, tables, roots, new_ids);
    lemma_completed(tables, roots);
    assert(plans.contains_key(r));
    lemma_planned(workers, tables, roots, new_ids, r);
    lemma_accepted_rebalances(ctx, workers, tables, roots, source_flag, new_ids);
    lemma_actors_change(plans, fragments_of(tables), statuses_of(tables), new_ids, r);
    assert(o.places == places_after(tables, plans, new_ids));
    let own = root_bits(
        plans.dom(),
        ctx.fragment_map@,
        targets_of(tables),
        o.to_remove,
        o.to_create,
    );
    lemma_bits_kept(
        ascending_of(plans.dom()),
        own,
        dispatchers_of(tables),
        sources_of(tables),
        targets_of(tables),
        o.places,
        r,
    );
    assert(plans.dom().contains(r) && !targets_of(tables).contains(r));
    lemma_rebalanced(actors, removed, created);
    let bits = inner_bits(o.bits, r);
    assert(bits == settle(balance_queue(actors, removed, created), removed));
    assert forall|a: u32| #[trigger] bits.contains_key(a) <==> o.places[r].contains_key(a) by {}
    assert(bits.dom() =~= o.places[r].dom());
}

/// A fragment that follows a hash-distributed root has each virtual node with one of its actors, as
/// the root has.
pub proof fn lemma_follower_owns_once(
    ctx: &RescheduleContext,
    workers: Seq<WorkerNode>,
    tables: Seq<TableFragments>,
    roots: Map<u32, UnitChange>,
    source_flag: u32,
    new_ids: Seq<u32>,
    r: u32,
    f: u32,
)
    requires
        is_context(*ctx, workers, tables, roots, source_flag),
        can_spread(workers, tables, roots, new_ids),
        ({
            let plans = with_followers(tables, roots);
            let o = outcome(ctx, plans, new_ids);
            copies_agree(
                plans.dom(),
                dispatchers_of(tables),
                sources_of(tables),
                targets_of(tables),
                o.places,
                o.bits,
            )
        }),
        roots.contains_key(r),
        follows(tables, r, f),
        fragments_of(tables)[r].distribution_type == FragmentDistributionType::Hash,
    ensures
        ({
            let o = outcome(ctx, with_followers(tables, roots), new_ids);
            owns_once(o.places[f], inner_bits(o.bits, f))
        }),
{
    let plans = with_followers(tables, roots);
    let o = outcome(ctx, plans, new_ids);
    lemma_root_owns_once(ctx, workers, tables, roots, source_flag, new_ids, r);
    lemma_root_accepted(workers, tables, roots, new_ids);
    lemma_completed(tables, roots);
    assert(plans.contains_key(r) && plans.contains_key(f));
    assert(o.places == places_after(tables, plans, new_ids));
    lemma_accepted_apart(workers, tables, roots, new_ids, r);
    lemma_accepted_apart(workers, tables, roots, new_ids, f);
    lemma_accepted_places(ctx, workers, tables, roots, source_flag, new_ids);
    lemma_planned(workers, tables, roots, new_ids, r);
    lemma_planned(workers, tables, roots, new_ids, f);
    lemma_units_after(plans, fragments_of(tables), statuses_of(tables), new_ids, r);
    lemma_units_after(plans, fragments_of(tables), statuses_of(tables), new_ids, f);
    lemma_follower_units(tables, r, f);
    let t = lemma_root_of(tables, roots, f);
    assert(plans[f] == plans[r]);
    assert(is_root(sources_of(tables), targets_of(tables), r));
    assert(followers(dispatchers_of(tables), targets_of(tables), r).contains(f));
    assert(aligned(o.places[r], o.places[f]));
    assert(o.places[r].values() == o.places[f].values());
    lemma_copy_owns_once(o.places[r], o.places[f], inner_bits(o.bits, r));
}

/// Copying virtual nodes to the actors on the same parallel units keeps each with one actor.
proof fn lemma_copy_owns_once(
    root_places: Map<u32, u32>,
    places: Map<u32, u32>,
    bits: Map<u32, Seq<bool>>,
)
    requires
        root_places.dom().finite(),
        places.dom().finite(),
        apart_on_units(root_places),
        apart_on_units(places),
        aligned(root_places, places),
        root_places.values() == places.values(),
        owns_once(root_places, bits),
    ensures
        owns_once(
            places,
            follower_bits(ascending_of(root_places.dom()), root_places, places, bits),
        ),
{
    let ids = ascending_of(root_places.dom());
    let copied = follower_bits(ids, root_places, places, bits);
    lemma_ascending_exists(root_places.dom());
    assert forall|i: int| 0 <= i < ids.len() implies root_places.contains_key(#[trigger] ids[i]) by {
        assert(ids.to_set().contains(ids[i]));
    }
    lemma_follower_bits(ids, root_places, places, bits);
    // Every actor has what its counterpart has.
    assert forall|b: u32| #[trigger] places.contains_key(b) implies exists|a: u32| #[trigger]
        root_places.contains_key(a) && root_places[a] == places[b] by {
        assert(places.values().contains(places[b]));
        assert(root_places.values().contains(places[b]));
        let a = choose|a: u32| root_places.contains_key(a) && root_places[a] == places[b];
        assert(root_places.contains_key(a));
    }
    assert forall|b: u32| #[trigger] copied.contains_key(b) <==> places.contains_key(b) by {
        if copied.contains_key(b) {
            let i = choose|i: int|
                0 <= i < ids.len() && bits.contains_key(#[trigger] ids[i]) && actor_at(
                    places,
                    root_places[ids[i]],
                ) == Some(b);
            lemma_actor_at(places, root_places[ids[i]]);
        }
        if places.contains_key(b) {
            let a = choose|a: u32| #[trigger]
                root_places.contains_key(a) && root_places[a] == places[b];
            lemma_copied(root_places, places, bits, a, b);
            assert(bits.dom().contains(a));
        }
    }
    assert(copied.dom() =~= places.dom());
    assert forall|b: u32| #[trigger] copied.contains_key(b) implies copied[b].len() == VNODE_COUNT by {
        let a = choose|a: u32| #[trigger] root_places.contains_key(a) && root_places[a] == places[b];
        lemma_copied(root_places, places, bits, a, b);
        assert(bits.dom().contains(a));
    }
    assert forall|b: u32, c: u32|
        #![trigger copied[b], copied[c]]
        copied.contains_key(b) && copied.contains_key(c) && b != c implies disjoint_bits(
        copied[b],
        copied[c],
    ) by {
        let a = choose|a: u32| #[trigger] root_places.contains_key(a) && root_places[a] == places[b];
        let d = choose|d: u32| #[trigger] root_places.contains_key(d) && root_places[d] == places[c];
        lemma_copied(root_places, places, bits, a, b);
        lemma_copied(root_places, places, bits, d, c);
        assert(bits.dom().contains(a) && bits.dom().contains(d));
        assert(places[b] != places[c]);
        assert(a != d);
        assert(disjoint_bits(bits[a], bits[d]));
    }
    assert forall|k: int| 0 <= k < VNODE_COUNT implies #[trigger] owned(copied, k) by {
        assert(owned(bits, k));
        let a = choose|a: u32| bits.contains_key(a) && #[trigger] bits[a][k];
        assert(root_places.dom().contains(a));
        assert(root_places.values().contains(root_places[a]));
        assert(places.values().contains(root_places[a]));
        let b = choose|b: u32| places.contains_key(b) && places[b] == root_places[a];
        lemma_copied(root_places, places, bits, a, b);
        assert(copied.contains_key(b) && copied[b][k]);
    }
}

} // verus!
