//! That the actors which a `NoShuffle` edge joins are on the same parallel unit and hold the same
//! virtual nodes after a reschedule.
use crate::common::collections::{ascending_of, lemma_ascending_exists};
use crate::common::worker::WorkerNode;
use crate::scale::accepted::{accepted, lemma_accepted_apart, lemma_accepted_places};
use crate::scale::accepted::{lemma_follower_is_target, lemma_root_accepted, lemma_root_of};
use crate::scale::accepted::places_after;
use crate::scale::alignment::apart_on_units;
use crate::scale::context::{dispatchers_of, follows, is_context, lemma_completed};
use crate::scale::context::{lemma_follow_edge, sources_of, targets_of, with_followers};
use crate::scale::context::RescheduleContext;
use crate::scale::model::{DispatcherType, TableFragments, UnitChange};
use crate::scale::prepare::{outcome, Outcome};
use crate::scale::relation::{actor_at, actor_on, aligned, all_pairs, copies_agree};
use crate::scale::relation::{edges_aligned, follower_bits, inner_bits, is_followed_edge, is_root};
use crate::scale::relation::{pairs_between, pairs_from, NoShufflePair};
use vstd::prelude::*;

verus! {

/// The two actors are on the same parallel unit, and hold the same virtual nodes.
pub open spec fn are_counterparts(o: Outcome, pair: NoShufflePair) -> bool {
    let up = pair.upstream_fragment_id;
    let f = pair.fragment_id;
    let a = pair.upstream_actor_id;
    let b = pair.actor_id;
    &&& o.places[up].contains_key(a) && o.places[f].contains_key(b)
    &&& o.places[up][a] == o.places[f][b]
    &&& inner_bits(o.bits, up).contains_key(a) <==> inner_bits(o.bits, f).contains_key(b)
    &&& inner_bits(o.bits, up).contains_key(a) ==> inner_bits(o.bits, up)[a] == inner_bits(
        o.bits,
        f,
    )[b]
}

/// An actor that is found on a parallel unit is there.
proof fn lemma_found(ids: Seq<u32>, places: Map<u32, u32>, unit: u32)
    ensures
        actor_on(ids, places, unit) matches Some(a) ==> ids.contains(a) && places[a] == unit,
    decreases ids.len(),
{
    if ids.len() > 0 {
        let init = ids.drop_last();
        lemma_found(init, places, unit);
        if places[ids.last()] == unit {
            assert(ids[ids.len() - 1] == ids.last());
        } else if actor_on(init, places, unit) is Some {
            let i = init.index_of(actor_on(init, places, unit)->Some_0);
            assert(ids[i] == init[i]);
        }
    }
}

/// The actor at a parallel unit is an actor of the fragment, and it is there.
pub proof fn lemma_actor_at(places: Map<u32, u32>, unit: u32)
    requires
        places.dom().finite(),
    ensures
        actor_at(places, unit) matches Some(a) ==> places.contains_key(a) && places[a] == unit,
{
    let ids = ascending_of(places.dom());
    lemma_ascending_exists(places.dom());
    lemma_found(ids, places, unit);
    if actor_on(ids, places, unit) is Some {
        assert(ids.to_set().contains(actor_on(ids, places, unit)->Some_0));
    }
}

/// What a follower has is what the actors of the root have that are on the same parallel units.
pub proof fn lemma_follower_bits(
    ids: Seq<u32>,
    root_places: Map<u32, u32>,
    places: Map<u32, u32>,
    bits: Map<u32, Seq<bool>>,
)
    requires
        ids.no_duplicates(),
        places.dom().finite(),
        forall|i: int| 0 <= i < ids.len() ==> root_places.contains_key(#[trigger] ids[i]),
        aligned(root_places, places),
        apart_on_units(root_places),
    ensures
        forall|b: u32| #[trigger]
            follower_bits(ids, root_places, places, bits).contains_key(b) ==> exists|i: int|
                0 <= i < ids.len() && bits.contains_key(#[trigger] ids[i]) && actor_at(
                    places,
                    root_places[ids[i]],
                ) == Some(b),
        forall|i: int|
            0 <= i < ids.len() && bits.contains_key(#[trigger] ids[i]) ==> ({
                let b = actor_at(places, root_places[ids[i]])->Some_0;
                let m = follower_bits(ids, root_places, places, bits);
                m.contains_key(b) && m[b] == bits[ids[i]]
            }),
    decreases ids.len(),
{
    if ids.len() > 0 {
        let init = ids.drop_last();
        assert forall|i: int| 0 <= i < init.len() implies root_places.contains_key(
            #[trigger] init[i],
        ) by {
            assert(init[i] == ids[i]);
        }
        lemma_follower_bits(init, root_places, places, bits);
        let last = ids.len() - 1;
        assert(ids[last] == ids.last());
        let before = follower_bits(init, root_places, places, bits);
        let m = follower_bits(ids, root_places, places, bits);
        let at_last = actor_at(places, root_places[ids.last()]);
        assert(root_places.contains_key(ids[last]));
        assert(at_last is Some);
        assert forall|b: u32| #[trigger] m.contains_key(b) implies exists|i: int|
            0 <= i < ids.len() && bits.contains_key(#[trigger] ids[i]) && actor_at(
                places,
                root_places[ids[i]],
            ) == Some(b) by {
            if before.contains_key(b) {
                let i = choose|i: int|
                    0 <= i < init.len() && bits.contains_key(#[trigger] init[i]) && actor_at(
                        places,
                        root_places[init[i]],
                    ) == Some(b);
                assert(ids[i] == init[i]);
            } else {
                assert(bits.contains_key(ids[last]));
                assert(at_last == Some(b));
            }
        }
        assert forall|i: int| 0 <= i < ids.len() && bits.contains_key(#[trigger] ids[i]) implies ({
            let b = actor_at(places, root_places[ids[i]])->Some_0;
            m.contains_key(b) && m[b] == bits[ids[i]]
        }) by {
            if i < last {
                assert(init[i] == ids[i]);
                assert(bits.contains_key(init[i]));
                let b = actor_at(places, root_places[ids[i]])->Some_0;
                assert(root_places.contains_key(ids[i]));
                lemma_actor_at(places, root_places[ids[i]]);
                lemma_actor_at(places, root_places[ids.last()]);
                assert(ids[i] != ids[last]);
                assert(root_places[ids[i]] != root_places[ids[last]]);
                assert(Some(b) != at_last);
            }
        }
    }
}

/// A follower's actor has what the root's actor on the same parallel unit has.
pub proof fn lemma_copied(
    root_places: Map<u32, u32>,
    places: Map<u32, u32>,
    bits: Map<u32, Seq<bool>>,
    a: u32,
    b: u32,
)
    requires
        root_places.dom().finite(),
        places.dom().finite(),
        aligned(root_places, places),
        apart_on_units(root_places),
        apart_on_units(places),
        root_places.contains_key(a),
        places.contains_key(b),
        root_places[a] == places[b],
    ensures
        ({
            let m = follower_bits(ascending_of(root_places.dom()), root_places, places, bits);
            &&& m.contains_key(b) <==> bits.contains_key(a)
            &&& m.contains_key(b) ==> m[b] == bits[a]
        }),
{
    let ids = ascending_of(root_places.dom());
    lemma_ascending_exists(root_places.dom());
    assert forall|i: int| 0 <= i < ids.len() implies root_places.contains_key(#[trigger] ids[i]) by {
        assert(ids.to_set().contains(ids[i]));
    }
    lemma_follower_bits(ids, root_places, places, bits);
    let m = follower_bits(ids, root_places, places, bits);
    assert(ids.to_set().contains(a));
    let k = ids.index_of(a);
    assert(ids[k] == a);
    lemma_actor_at(places, root_places[a]);
    let c = actor_at(places, root_places[a])->Some_0;
    assert(places[c] == places[b]);
    assert(c == b);
    if m.contains_key(b) {
        let i = choose|i: int|
            0 <= i < ids.len() && bits.contains_key(#[trigger] ids[i]) && actor_at(
                places,
                root_places[ids[i]],
            ) == Some(b);
        lemma_actor_at(places, root_places[ids[i]]);
        assert(root_places.contains_key(ids[i]));
        assert(root_places[ids[i]] == root_places[a]);
    }
}

/// A follower's actor has nothing where no actor of the root is on its parallel unit.
proof fn lemma_not_copied(
    root_places: Map<u32, u32>,
    places: Map<u32, u32>,
    bits: Map<u32, Seq<bool>>,
    b: u32,
)
    requires
        root_places.dom().finite(),
        places.dom().finite(),
        aligned(root_places, places),
        apart_on_units(root_places),
        forall|a: u32| #[trigger] root_places.contains_key(a) ==> root_places[a] != places[b],
    ensures
        !follower_bits(
            ascending_of(root_places.dom()),
            root_places,
            places,
            bits,
        ).contains_key(b),
{
    let ids = ascending_of(root_places.dom());
    lemma_ascending_exists(root_places.dom());
    assert forall|i: int| 0 <= i < ids.len() implies root_places.contains_key(#[trigger] ids[i]) by {
        assert(ids.to_set().contains(ids[i]));
    }
    lemma_follower_bits(ids, root_places, places, bits);
    if follower_bits(ids, root_places, places, bits).contains_key(b) {
        let i = choose|i: int|
            0 <= i < ids.len() && bits.contains_key(#[trigger] ids[i]) && actor_at(
                places,
                root_places[ids[i]],
            ) == Some(b);
        lemma_actor_at(places, root_places[ids[i]]);
        assert(root_places.contains_key(ids[i]));
    }
}

/// The pair joins an actor of the one fragment with the one on its parallel unit in the other.
spec fn is_pair(places: Map<u32, Map<u32, u32>>, up: u32, f: u32, pair: NoShufflePair) -> bool {
    &&& pair.upstream_fragment_id == up && pair.fragment_id == f
    &&& places[up].contains_key(pair.upstream_actor_id)
    &&& pair.actor_id == actor_at(places[f], places[up][pair.upstream_actor_id])->Some_0
}

proof fn lemma_pairs_between(ids: Seq<u32>, up: u32, f: u32, places: Map<u32, Map<u32, u32>>)
    requires
        forall|i: int| 0 <= i < ids.len() ==> places[up].contains_key(#[trigger] ids[i]),
    ensures
        forall|k: int|
            0 <= k < pairs_between(ids, up, f, places).len() ==> is_pair(
                places,
                up,
                f,
                #[trigger] pairs_between(ids, up, f, places)[k],
            ),
    decreases ids.len(),
{
    if ids.len() > 0 {
        let init = ids.drop_last();
        assert forall|i: int| 0 <= i < init.len() implies places[up].contains_key(
            #[trigger] init[i],
        ) by {
            assert(init[i] == ids[i]);
        }
        assert(places[up].contains_key(ids[ids.len() - 1]));
        lemma_pairs_between(init, up, f, places);
        let before = pairs_between(init, up, f, places);
        let all = pairs_between(ids, up, f, places);
        assert forall|k: int| 0 <= k < all.len() implies is_pair(places, up, f, #[trigger] all[k]) by {
            if k < before.len() {
                assert(all[k] == before[k]);
            }
        }
    }
}

proof fn lemma_pairs_from(
    fs: Seq<u32>,
    up: u32,
    index: Map<u32, Map<u32, DispatcherType>>,
    sources: Set<u32>,
    targets: Set<u32>,
    places: Map<u32, Map<u32, u32>>,
)
    requires
        places[up].dom().finite(),
    ensures
        forall|k: int|
            0 <= k < pairs_from(fs, up, index, sources, targets, places).len() ==> ({
                let pair = #[trigger] pairs_from(fs, up, index, sources, targets, places)[k];
                is_followed_edge(index, sources, targets, up, pair.fragment_id) && is_pair(
                    places,
                    up,
                    pair.fragment_id,
                    pair,
                )
            }),
    decreases fs.len(),
{
    if fs.len() > 0 {
        lemma_pairs_from(fs.drop_last(), up, index, sources, targets, places);
        let ids = ascending_of(places[up].dom());
        lemma_ascending_exists(places[up].dom());
        assert forall|i: int| 0 <= i < ids.len() implies places[up].contains_key(
            #[trigger] ids[i],
        ) by {
            assert(ids.to_set().contains(ids[i]));
        }
        lemma_pairs_between(ids, up, fs.last(), places);
        let before = pairs_from(fs.drop_last(), up, index, sources, targets, places);
        let all = pairs_from(fs, up, index, sources, targets, places);
        let own = pairs_between(ids, up, fs.last(), places);
        assert forall|k: int| 0 <= k < all.len() implies ({
            let pair = #[trigger] all[k];
            is_followed_edge(index, sources, targets, up, pair.fragment_id) && is_pair(
                places,
                up,
                pair.fragment_id,
                pair,
            )
        }) by {
            if k < before.len() {
                assert(all[k] == before[k]);
            } else {
                assert(all[k] == own[k - before.len()]);
            }
        }
    }
}

proof fn lemma_all_pairs(
    ids: Seq<u32>,
    index: Map<u32, Map<u32, DispatcherType>>,
    sources: Set<u32>,
    targets: Set<u32>,
    places: Map<u32, Map<u32, u32>>,
)
    requires
        forall|i: int| 0 <= i < ids.len() ==> places[#[trigger] ids[i]].dom().finite(),
    ensures
        forall|k: int|
            0 <= k < all_pairs(ids, index, sources, targets, places).len() ==> ({
                let pair = #[trigger] all_pairs(ids, index, sources, targets, places)[k];
                let up = pair.upstream_fragment_id;
                ids.contains(up) && is_followed_edge(index, sources, targets, up, pair.fragment_id)
                    && is_pair(places, up, pair.fragment_id, pair)
            }),
    decreases ids.len(),
{
    if ids.len() > 0 {
        let init = ids.drop_last();
        assert forall|i: int| 0 <= i < init.len() implies places[
            #[trigger] init[i]].dom().finite() by {
            assert(init[i] == ids[i]);
        }
        lemma_all_pairs(init, index, sources, targets, places);
        let up = ids.last();
        assert(ids[ids.len() - 1] == up);
        let before = all_pairs(init, index, sources, targets, places);
        let all = all_pairs(ids, index, sources, targets, places);
        if index.contains_key(up) {
            lemma_pairs_from(ascending_of(index[up].dom()), up, index, sources, targets, places);
        }
        assert forall|k: int| 0 <= k < all.len() implies ({
            let pair = #[trigger] all[k];
            let up = pair.upstream_fragment_id;
            ids.contains(up) && is_followed_edge(index, sources, targets, up, pair.fragment_id)
                && is_pair(places, up, pair.fragment_id, pair)
        }) by {
            if k < before.len() {
                assert(all[k] == before[k]);
                let i = init.index_of(before[k].upstream_fragment_id);
                assert(ids[i] == init[i]);
            } else {
                assert(ids.contains(up));
            }
        }
    }
}

/// After a reschedule that passes the checks, the actors that a `NoShuffle` edge joins are on the
/// same parallel unit and hold the same virtual nodes. This holds of jobs that are in order, where
/// a fragment that follows several roots gets the same from each.
pub proof fn lemma_counterparts(
    ctx: &RescheduleContext,
    workers: Seq<WorkerNode>,
    tables: Seq<TableFragments>,
    roots: Map<u32, UnitChange>,
    source_flag: u32,
    new_ids: Seq<u32>,
)
    requires
        is_context(*ctx, workers, tables, roots, source_flag),
        accepted(workers, tables, roots, new_ids),
        ({
            let plans = with_followers(tables, roots);
            let o = outcome(ctx, plans, new_ids);
            copies_agree(
                plans.dom(),
                dispatchers_of(tables),
                sources_of(tables),
                targets_of(tables),
                o.places,
                o.bits,
            )
        }),
    ensures
        ({
            let o = outcome(ctx, with_followers(tables, roots), new_ids);
            forall|k: int|
                0 <= k < o.pairs.len() ==> are_counterparts(o, #[trigger] o.pairs[k])
        }),
{
    let plans = with_followers(tables, roots);
    let o = outcome(ctx, plans, new_ids);
    let ids = ascending_of(plans.dom());
    let index = dispatchers_of(tables);
    let sources = sources_of(tables);
    let targets = targets_of(tables);
    assert(o.places == places_after(tables, plans, new_ids));
    lemma_ascending_exists(plans.dom());
    assert forall|i: int| 0 <= i < ids.len() implies o.places[#[trigger] ids[i]].dom().finite() by {
        assert(ids.to_set().contains(ids[i]));
        lemma_accepted_apart(workers, tables, roots, new_ids, ids[i]);
    }
    lemma_all_pairs(ids, index, sources, targets, o.places);
    lemma_accepted_places(ctx, workers, tables, roots, source_flag, new_ids);
    assert forall|k: int| 0 <= k < o.pairs.len() implies are_counterparts(o, #[trigger] o.pairs[k]) by {
        let pair = o.pairs[k];
        let up = pair.upstream_fragment_id;
        assert(ids.to_set().contains(up));
        assert(is_followed_edge(index, sources, targets, up, pair.fragment_id));
        lemma_one_pair(ctx, workers, tables, roots, source_flag, new_ids, pair);
    }
}

/// The actors of one pair are counterparts.
proof fn lemma_one_pair(
    ctx: &RescheduleContext,
    workers: Seq<WorkerNode>,
    tables: Seq<TableFragments>,
    roots: Map<u32, UnitChange>,
    source_flag: u32,
    new_ids: Seq<u32>,
    pair: NoShufflePair,
)
    requires
        is_context(*ctx, workers, tables, roots, source_flag),
        accepted(workers, tables, roots, new_ids),
        ({
            let plans = with_followers(tables, roots);
            let o = outcome(ctx, plans, new_ids);
            let up = pair.upstream_fragment_id;
            let f = pair.fragment_id;
            &&& copies_agree(
                plans.dom(),
                dispatchers_of(tables),
                sources_of(tables),
                targets_of(tables),
                o.places,
                o.bits,
            )
            &&& edges_aligned(
                plans.dom(),
                dispatchers_of(tables),
                sources_of(tables),
                targets_of(tables),
                o.places,
            )
            &&& plans.contains_key(up)
            &&& is_followed_edge(
                dispatchers_of(tables),
                sources_of(tables),
                targets_of(tables),
                up,
                f,
            )
            &&& is_pair(o.places, up, f, pair)
        }),
    ensures
        are_counterparts(outcome(ctx, with_followers(tables, roots), new_ids), pair),
{
    let plans = with_followers(tables, roots);
    let o = outcome(ctx, plans, new_ids);
    let index = dispatchers_of(tables);
    let sources = sources_of(tables);
    let targets = targets_of(tables);
    let up = pair.upstream_fragment_id;
    let f = pair.fragment_id;
    let a = pair.upstream_actor_id;
    let b = pair.actor_id;
    assert(o.places == places_after(tables, plans, new_ids));
    lemma_root_accepted(workers, tables, roots, new_ids);
    lemma_completed(tables, roots);
    let r = lemma_root_of(tables, roots, up);
    if up != r {
        lemma_follower_is_target(tables, r, up);
    }
    lemma_follow_edge(index, targets, r, up, f);
    assert(sources.contains(r));
    assert(follows(tables, r, f));
    assert(plans.contains_key(r) && plans.contains_key(f));
    assert(is_root(sources, targets, r));
    lemma_accepted_apart(workers, tables, roots, new_ids, r);
    lemma_accepted_apart(workers, tables, roots, new_ids, up);
    lemma_accepted_apart(workers, tables, roots, new_ids, f);
    lemma_actor_at(o.places[f], o.places[up][a]);
    assert(aligned(o.places[up], o.places[f]));
    lemma_accepted_places(ctx, workers, tables, roots, source_flag, new_ids);
    assert(aligned(o.places[r], o.places[f]));
    let root_bits = inner_bits(o.bits, r);
    let unit = o.places[up][a];
    if exists|c: u32| #[trigger] o.places[r].contains_key(c) && o.places[r][c] == unit {
        let c = choose|c: u32| #[trigger] o.places[r].contains_key(c) && o.places[r][c] == unit;
        lemma_copied(o.places[r], o.places[f], root_bits, c, b);
        if up != r {
            assert(aligned(o.places[r], o.places[up]));
            lemma_copied(o.places[r], o.places[up], root_bits, c, a);
        }
    } else {
        assert(up != r);
        assert(aligned(o.places[r], o.places[up]));
        lemma_not_copied(o.places[r], o.places[f], root_bits, b);
        lemma_not_copied(o.places[r], o.places[up], root_bits, a);
    }
}

} // verus!
