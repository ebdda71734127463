//! The indexes of edges hold the edges of the actors' dispatchers, and the pairs of actors stand on one unit.
use crate::common::collections::{ascending_of, lemma_ascending_exists};
use crate::scale::arrange::nested;
use crate::scale::context::RescheduleContext;
use crate::scale::counterparts::lemma_actor_at;
use crate::scale::links::{
    actor_links, build_fragment_dispatcher_index, build_no_shuffle_relation_index,
    collect_upstream_dispatchers, dispatcher_index, dispatcher_links, first_actors, index_link,
    index_links, is_first_actor, is_no_shuffle, joins, lemma_index_links, links, links_from,
    no_shuffle_sources, no_shuffle_targets, upstreams_of, Link,
};
use crate::scale::model::{CustomActorInfo, DispatcherType, ParallelUnitReschedule};
use crate::scale::relation::{
    actor_at, all_pairs, collect_pairs, downstream_actor, edges_aligned, find_downstream_actor,
    find_upstream_actor, is_followed_edge, pairs_between, pairs_from, upstream_actor, NoShufflePair,
};
use std::collections::{BTreeMap, BTreeSet};
use vstd::prelude::*;

verus! {

broadcast use {vstd::std_specs::btree::group_btree_axioms, vstd::laws_cmp::group_laws_cmp};

/// The dispatcher of the actor sends to the actor in the place.
pub open spec fn sends(
    actors: Map<u32, &CustomActorInfo>,
    a: u32,
    d: int,
    k: int,
    to: u32,
) -> bool {
    &&& actors.contains_key(a)
    &&& 0 <= d < actors[a].dispatcher@.len()
    &&& 0 <= k < actors[a].dispatcher@[d].downstream_actor_id@.len()
    &&& actors[a].dispatcher@[d].downstream_actor_id@[k] == to
}

/// The edge is that of the dispatcher of the actor to the actor in the place.
pub open spec fn is_edge(
    actors: Map<u32, &CustomActorInfo>,
    a: u32,
    d: int,
    k: int,
    l: Link,
) -> bool {
    &&& sends(actors, a, d, k, l.downstream_actor_id)
    &&& l.actor_id == a && l.fragment_id == actors[a].fragment_id
    &&& l.dispatcher_id == actors[a].dispatcher@[d].dispatcher_id
    &&& l.dispatcher_type == actors[a].dispatcher@[d].dispatcher_type
}

proof fn lemma_edge_listed(actors: Map<u32, &CustomActorInfo>, a: u32, n: nat, d: int, k: int, l: Link)
    requires
        is_edge(actors, a, d, k, l),
        d < n <= actors[a].dispatcher@.len(),
    ensures
        actor_links(a, *actors[a], n).contains(l),
    decreases n,
{
    let before = actor_links(a, *actors[a], (n - 1) as nat);
    let own = dispatcher_links(a, *actors[a], actors[a].dispatcher@[n - 1]);
    let all = actor_links(a, *actors[a], n);
    assert(all == before + own);
    if d == n - 1 {
        assert(own[k] == l);
        assert(all[before.len() + k] == l);
    } else {
        lemma_edge_listed(actors, a, (n - 1) as nat, d, k, l);
        let i = choose|i: int| 0 <= i < before.len() && before[i] == l;
        assert(all[i] == l);
    }
}

proof fn lemma_listed_edge(actors: Map<u32, &CustomActorInfo>, a: u32, n: nat, l: Link)
    requires
        actors.contains_key(a),
        n <= actors[a].dispatcher@.len(),
        actor_links(a, *actors[a], n).contains(l),
    ensures
        exists|d: int, k: int| is_edge(actors, a, d, k, l),
    decreases n,
{
    if n > 0 {
        let before = actor_links(a, *actors[a], (n - 1) as nat);
        let own = dispatcher_links(a, *actors[a], actors[a].dispatcher@[n - 1]);
        let all = actor_links(a, *actors[a], n);
        assert(all == before + own);
        let i = choose|i: int| 0 <= i < all.len() && all[i] == l;
        if i < before.len() {
            assert(before[i] == l);
            lemma_listed_edge(actors, a, (n - 1) as nat, l);
        } else {
            assert(own[i - before.len()] == l);
            assert(is_edge(actors, a, n - 1, i - before.len(), l));
        }
    }
}

proof fn lemma_links_are_edges(ids: Seq<u32>, actors: Map<u32, &CustomActorInfo>, l: Link)
    requires
        forall|i: int| 0 <= i < ids.len() ==> actors.contains_key(#[trigger] ids[i]),
    ensures
        links_from(ids, actors).contains(l) <==> ids.contains(l.actor_id) && exists|d: int, k: int|
            is_edge(actors, l.actor_id, d, k, l),
    decreases ids.len(),
{
    if ids.len() > 0 {
        let rest = ids.drop_last();
        let n = ids.len() - 1;
        let a = ids[n];
        assert forall|i: int| 0 <= i < rest.len() implies actors.contains_key(#[trigger] rest[i]) by {
            assert(rest[i] == ids[i]);
        }
        lemma_links_are_edges(rest, actors, l);
        let before = links_from(rest, actors);
        let own = actor_links(a, *actors[a], actors[a].dispatcher@.len());
        let all = links_from(ids, actors);
        assert(all == before + own);
        if all.contains(l) {
            let i = choose|i: int| 0 <= i < all.len() && all[i] == l;
            if i < before.len() {
                assert(before[i] == l);
                let j = choose|j: int| 0 <= j < rest.len() && rest[j] == l.actor_id;
                assert(ids[j] == l.actor_id);
            } else {
                assert(own[i - before.len()] == l);
                lemma_listed_edge(actors, a, actors[a].dispatcher@.len(), l);
                assert(ids[n] == l.actor_id);
            }
        }
        if ids.contains(l.actor_id) && exists|d: int, k: int| is_edge(actors, l.actor_id, d, k, l) {
            let (d, k) = choose|d: int, k: int| is_edge(actors, l.actor_id, d, k, l);
            if a == l.actor_id {
                lemma_edge_listed(actors, a, actors[a].dispatcher@.len(), d, k, l);
                let i = choose|i: int| 0 <= i < own.len() && own[i] == l;
                assert(all[before.len() + i] == l);
            } else {
                let j = choose|j: int| 0 <= j < ids.len() && ids[j] == l.actor_id;
                assert(rest[j] == l.actor_id);
                let i = choose|i: int| 0 <= i < before.len() && before[i] == l;
                assert(all[i] == l);
            }
        }
    }
}

proof fn lemma_all_links(actors: Map<u32, &CustomActorInfo>, l: Link)
    requires
        actors.dom().finite(),
    ensures
        links(actors).contains(l) <==> exists|d: int, k: int| is_edge(actors, l.actor_id, d, k, l),
{
    lemma_ascending_exists(actors.dom());
    let ids = ascending_of(actors.dom());
    assert forall|i: int| 0 <= i < ids.len() implies actors.contains_key(#[trigger] ids[i]) by {
        assert(ids.to_set().contains(ids[i]));
    }
    lemma_links_are_edges(ids, actors, l);
    if exists|d: int, k: int| is_edge(actors, l.actor_id, d, k, l) {
        assert(ids.to_set().contains(l.actor_id));
    }
}

/// Some dispatcher of the type leads from an actor of one fragment to a known actor of the other.
pub open spec fn dispatches(
    actors: Map<u32, &CustomActorInfo>,
    from: u32,
    to: u32,
    ty: DispatcherType,
) -> bool {
    exists|a: u32, d: int, k: int, b: u32| #[trigger]
        sends(actors, a, d, k, b) && actors[a].fragment_id == from && actors.contains_key(b)
            && actors[b].fragment_id == to && actors[a].dispatcher@[d].dispatcher_type == ty
}

/// A link of the type joins the fragments.
pub open spec fn joined_by(
    actors: Map<u32, &CustomActorInfo>,
    ls: Seq<Link>,
    from: u32,
    to: u32,
    ty: DispatcherType,
) -> bool {
    exists|i: int|
        0 <= i < ls.len() && joins(actors, #[trigger] ls[i], from, to) && ls[i].dispatcher_type == ty
}

proof fn lemma_joined_by(
    actors: Map<u32, &CustomActorInfo>,
    from: u32,
    to: u32,
    ty: DispatcherType,
)
    requires
        actors.dom().finite(),
    ensures
        joined_by(actors, links(actors), from, to, ty) <==> dispatches(actors, from, to, ty),
{
    let ls = links(actors);
    if joined_by(actors, ls, from, to, ty) {
        let i = choose|i: int|
            0 <= i < ls.len() && joins(actors, #[trigger] ls[i], from, to) && ls[i].dispatcher_type
                == ty;
        lemma_all_links(actors, ls[i]);
        assert(ls.contains(ls[i]));
        let (d, k) = choose|d: int, k: int| is_edge(actors, ls[i].actor_id, d, k, ls[i]);
        assert(sends(actors, ls[i].actor_id, d, k, ls[i].downstream_actor_id));
    }
    if dispatches(actors, from, to, ty) {
        let (a, d, k, b) = choose|a: u32, d: int, k: int, b: u32| #[trigger]
            sends(actors, a, d, k, b) && actors[a].fragment_id == from && actors.contains_key(b)
                && actors[b].fragment_id == to && actors[a].dispatcher@[d].dispatcher_type == ty;
        let l = Link {
            actor_id: a,
            fragment_id: from,
            dispatcher_id: actors[a].dispatcher@[d].dispatcher_id,
            dispatcher_type: ty,
            downstream_actor_id: b,
        };
        assert(is_edge(actors, a, d, k, l));
        lemma_all_links(actors, l);
        let i = choose|i: int| 0 <= i < ls.len() && ls[i] == l;
        assert(joins(actors, ls[i], from, to));
    }
}

proof fn lemma_index_type(
    index: Map<u32, Map<u32, DispatcherType>>,
    actors: Map<u32, &CustomActorInfo>,
    ls: Seq<Link>,
    from: u32,
    to: u32,
)
    ensures
        ({
            let after = index_links(index, actors, ls);
            after.contains_key(from) && after[from].contains_key(to) ==> {
                ||| joined_by(actors, ls, from, to, after[from][to])
                ||| index.contains_key(from) && index[from].contains_key(to) && index[from][to]
                    == after[from][to]
            }
        }),
    decreases ls.len(),
{
    if ls.len() > 0 {
        let rest = ls.drop_last();
        let n = ls.len() - 1;
        lemma_index_type(index, actors, rest, from, to);
        let mid = index_links(index, actors, rest);
        let after = index_links(index, actors, ls);
        assert(after == index_link(mid, actors, ls.last()));
        if after.contains_key(from) && after[from].contains_key(to) {
            if joins(actors, ls[n], from, to) {
                assert(joined_by(actors, ls, from, to, after[from][to]));
            } else {
                assert(mid.contains_key(from) && mid[from].contains_key(to) && mid[from][to]
                    == after[from][to]);
                if joined_by(actors, rest, from, to, mid[from][to]) {
                    let i = choose|i: int|
                        0 <= i < rest.len() && joins(actors, #[trigger] rest[i], from, to)
                            && rest[i].dispatcher_type == mid[from][to];
                    assert(ls[i] == rest[i]);
                }
            }
        }
    }
}

/// Two fragments are in the index of dispatchers if and only if they were, or a dispatcher of an actor of the first
/// leads to a known actor of the second. The type is that of such a dispatcher, or the one that was there.
pub proof fn lemma_dispatchers_indexed(
    actor_map: &BTreeMap<u32, &CustomActorInfo>,
    index: &mut BTreeMap<u32, BTreeMap<u32, DispatcherType>>,
    from: u32,
    to: u32,
)
    requires
        call_ensures(build_fragment_dispatcher_index, (actor_map, index), ()),
    ensures
        (final(index)@.contains_key(from) && final(index)@[from]@.contains_key(to)) <==> (
        old(index)@.contains_key(from) && old(index)@[from]@.contains_key(to)) || exists|
            ty: DispatcherType,
        | #[trigger] dispatches(actor_map@, from, to, ty),
        final(index)@.contains_key(from) && final(index)@[from]@.contains_key(to) ==> (dispatches(
            actor_map@,
            from,
            to,
            final(index)@[from]@[to],
        ) || (old(index)@.contains_key(from) && old(index)@[from]@.contains_key(to)
            && final(index)@[from]@[to] == old(index)@[from]@[to])),
{
    let before = dispatcher_index(old(index)@);
    let after = dispatcher_index(final(index)@);
    let actors = actor_map@;
    let ls = links(actors);
    lemma_index_links(before, actors, ls, from, to);
    lemma_index_type(before, actors, ls, from, to);
    if exists|i: int| 0 <= i < ls.len() && joins(actors, #[trigger] ls[i], from, to) {
        let i = choose|i: int| 0 <= i < ls.len() && joins(actors, #[trigger] ls[i], from, to);
        lemma_joined_by(actors, from, to, ls[i].dispatcher_type);
        assert(joined_by(actors, ls, from, to, ls[i].dispatcher_type));
    }
    if exists|ty: DispatcherType| #[trigger] dispatches(actors, from, to, ty) {
        let ty = choose|ty: DispatcherType| #[trigger] dispatches(actors, from, to, ty);
        lemma_joined_by(actors, from, to, ty);
    }
    if after.contains_key(from) && after[from].contains_key(to) {
        lemma_joined_by(actors, from, to, after[from][to]);
    }
}

/// The actor is the first of its fragment and sends to a known actor one to one.
pub open spec fn first_sends_on(
    actors: Map<u32, &CustomActorInfo>,
    a: u32,
    d: int,
    k: int,
    b: u32,
) -> bool {
    &&& sends(actors, a, d, k, b) && actors.contains_key(b)
    &&& actors[a].dispatcher@[d].dispatcher_type == DispatcherType::NoShuffle
    &&& forall|c: u32|
        #[trigger] actors.contains_key(c) && actors[c].fragment_id == actors[a].fragment_id ==> a <= c
}

/// A fragment is one that a `NoShuffle` edge starts at, or leads to, if and only if it was, or the first actor of a
/// fragment has such an edge.
pub proof fn lemma_no_shuffle_indexed(
    actor_map: &BTreeMap<u32, &CustomActorInfo>,
    sources: &mut BTreeSet<u32>,
    targets: &mut BTreeSet<u32>,
    f: u32,
)
    requires
        call_ensures(build_no_shuffle_relation_index, (actor_map, sources, targets), ()),
    ensures
        final(sources)@.contains(f) <==> old(sources)@.contains(f) || exists|
            a: u32,
            d: int,
            k: int,
            b: u32,
        | #[trigger] first_sends_on(actor_map@, a, d, k, b) && actor_map@[a].fragment_id == f,
        final(targets)@.contains(f) <==> old(targets)@.contains(f) || exists|
            a: u32,
            d: int,
            k: int,
            b: u32,
        | #[trigger] first_sends_on(actor_map@, a, d, k, b) && actor_map@[b].fragment_id == f,
{
    let actors = actor_map@;
    let firsts = first_actors(actors);
    let ls = links_from(firsts, actors);
    lemma_firsts(actors);
    if no_shuffle_sources(actors, ls).contains(f) {
        let i = choose|i: int|
            0 <= i < ls.len() && is_no_shuffle(actors, #[trigger] ls[i]) && ls[i].fragment_id == f;
        lemma_first_edge(actors, ls[i]);
    }
    if no_shuffle_targets(actors, ls).contains(f) {
        let i = choose|i: int|
            0 <= i < ls.len() && is_no_shuffle(actors, #[trigger] ls[i])
                && actors[ls[i].downstream_actor_id].fragment_id == f;
        lemma_first_edge(actors, ls[i]);
    }
    if exists|a: u32, d: int, k: int, b: u32| #[trigger]
        first_sends_on(actors, a, d, k, b) && actors[a].fragment_id == f {
        let (a, d, k, b) = choose|a: u32, d: int, k: int, b: u32| #[trigger]
            first_sends_on(actors, a, d, k, b) && actors[a].fragment_id == f;
        let i = lemma_first_link(actors, a, d, k, b);
        assert(is_no_shuffle(actors, ls[i]) && ls[i].fragment_id == f);
    }
    if exists|a: u32, d: int, k: int, b: u32| #[trigger]
        first_sends_on(actors, a, d, k, b) && actors[b].fragment_id == f {
        let (a, d, k, b) = choose|a: u32, d: int, k: int, b: u32| #[trigger]
            first_sends_on(actors, a, d, k, b) && actors[b].fragment_id == f;
        let i = lemma_first_link(actors, a, d, k, b);
        assert(is_no_shuffle(actors, ls[i]));
    }
}

proof fn lemma_firsts(actors: Map<u32, &CustomActorInfo>)
    requires
        actors.dom().finite(),
    ensures
        forall|a: u32| #[trigger] first_actors(actors).contains(a) <==> is_first_actor(actors, a),
        forall|i: int|
            0 <= i < first_actors(actors).len() ==> actors.contains_key(
                #[trigger] first_actors(actors)[i],
            ),
{
    lemma_ascending_exists(actors.dom());
    let ids = ascending_of(actors.dom());
    let pred = |id: u32| is_first_actor(actors, id);
    let firsts = first_actors(actors);
    assert forall|a: u32| #[trigger] firsts.contains(a) <==> is_first_actor(actors, a) by {
        if firsts.contains(a) {
            let i = choose|i: int| 0 <= i < firsts.len() && firsts[i] == a;
            ids.lemma_filter_pred(pred, i);
        }
        if is_first_actor(actors, a) {
            assert(ids.to_set().contains(a));
            let i = choose|i: int| 0 <= i < ids.len() && ids[i] == a;
            assert(pred(ids[i]));
            ids.lemma_filter_contains(pred, i);
        }
    }
    assert forall|i: int| 0 <= i < firsts.len() implies actors.contains_key(#[trigger] firsts[i]) by {
        assert(firsts.contains(firsts[i]));
    }
}

proof fn lemma_first_edge(actors: Map<u32, &CustomActorInfo>, l: Link)
    requires
        actors.dom().finite(),
        links_from(first_actors(actors), actors).contains(l),
        is_no_shuffle(actors, l),
    ensures
        exists|a: u32, d: int, k: int, b: u32| #[trigger]
            first_sends_on(actors, a, d, k, b) && actors[a].fragment_id == l.fragment_id && b
                == l.downstream_actor_id,
{
    lemma_firsts(actors);
    lemma_links_are_edges(first_actors(actors), actors, l);
    let (d, k) = choose|d: int, k: int| is_edge(actors, l.actor_id, d, k, l);
    assert(is_first_actor(actors, l.actor_id));
    assert(first_sends_on(actors, l.actor_id, d, k, l.downstream_actor_id));
}

proof fn lemma_first_link(actors: Map<u32, &CustomActorInfo>, a: u32, d: int, k: int, b: u32) -> (i: int)
    requires
        actors.dom().finite(),
        first_sends_on(actors, a, d, k, b),
    ensures
        ({
            let ls = links_from(first_actors(actors), actors);
            &&& 0 <= i < ls.len()
            &&& ls[i].downstream_actor_id == b && ls[i].fragment_id == actors[a].fragment_id
            &&& ls[i].dispatcher_type == DispatcherType::NoShuffle
        }),
{
    let l = Link {
        actor_id: a,
        fragment_id: actors[a].fragment_id,
        dispatcher_id: actors[a].dispatcher@[d].dispatcher_id,
        dispatcher_type: DispatcherType::NoShuffle,
        downstream_actor_id: b,
    };
    lemma_firsts(actors);
    assert(is_edge(actors, a, d, k, l));
    assert(is_first_actor(actors, a));
    lemma_links_are_edges(first_actors(actors), actors, l);
    let ls = links_from(first_actors(actors), actors);
    choose|i: int| 0 <= i < ls.len() && ls[i] == l
}

/// What reaches an actor from upstream is listed if and only if a dispatcher of some actor sends to it: the fragment
/// of that actor, and the dispatcher with its type.
pub proof fn lemma_upstreams_indexed(
    actor_map: &BTreeMap<u32, &CustomActorInfo>,
    res: BTreeMap<u32, Vec<(u32, u64, DispatcherType)>>,
    to: u32,
    entry: (u32, u64, DispatcherType),
)
    requires
        call_ensures(collect_upstream_dispatchers, (actor_map,), res),
    ensures
        (res@.contains_key(to) && res@[to]@.contains(entry)) <==> exists|a: u32, d: int, k: int|
            #[trigger] sends(actor_map@, a, d, k, to) && entry == (
                actor_map@[a].fragment_id,
                actor_map@[a].dispatcher@[d].dispatcher_id,
                actor_map@[a].dispatcher@[d].dispatcher_type,
            ),
{
    let actors = actor_map@;
    let ls = links(actors);
    lemma_upstreams_of(ls, to, entry);
    assert(res@.contains_key(to) <==> upstreams_of(ls, to).len() > 0);
    if res@.contains_key(to) && res@[to]@.contains(entry) {
        let i = choose|i: int|
            0 <= i < ls.len() && (#[trigger] ls[i]).downstream_actor_id == to && entry == (
                ls[i].fragment_id,
                ls[i].dispatcher_id,
                ls[i].dispatcher_type,
            );
        lemma_all_links(actors, ls[i]);
        assert(ls.contains(ls[i]));
        let (d, k) = choose|d: int, k: int| is_edge(actors, ls[i].actor_id, d, k, ls[i]);
        assert(sends(actors, ls[i].actor_id, d, k, to));
    }
    if exists|a: u32, d: int, k: int|
        #[trigger] sends(actors, a, d, k, to) && entry == (
            actors[a].fragment_id,
            actors[a].dispatcher@[d].dispatcher_id,
            actors[a].dispatcher@[d].dispatcher_type,
        ) {
        let (a, d, k) = choose|a: u32, d: int, k: int|
            #[trigger] sends(actors, a, d, k, to) && entry == (
                actors[a].fragment_id,
                actors[a].dispatcher@[d].dispatcher_id,
                actors[a].dispatcher@[d].dispatcher_type,
            );
        let l = Link {
            actor_id: a,
            fragment_id: entry.0,
            dispatcher_id: entry.1,
            dispatcher_type: entry.2,
            downstream_actor_id: to,
        };
        assert(is_edge(actors, a, d, k, l));
        lemma_all_links(actors, l);
        let i = choose|i: int| 0 <= i < ls.len() && ls[i] == l;
        assert(ls[i].downstream_actor_id == to);
        assert(upstreams_of(ls, to).contains(entry));
    }
}

proof fn lemma_upstreams_of(ls: Seq<Link>, to: u32, entry: (u32, u64, DispatcherType))
    ensures
        upstreams_of(ls, to).contains(entry) <==> exists|i: int|
            0 <= i < ls.len() && (#[trigger] ls[i]).downstream_actor_id == to && entry == (
                ls[i].fragment_id,
                ls[i].dispatcher_id,
                ls[i].dispatcher_type,
            ),
    decreases ls.len(),
{
    if ls.len() > 0 {
        let rest = ls.drop_last();
        let n = ls.len() - 1;
        lemma_upstreams_of(rest, to, entry);
        let before = upstreams_of(rest, to);
        let all = upstreams_of(ls, to);
        if before.contains(entry) {
            let j = choose|j: int| 0 <= j < before.len() && before[j] == entry;
            assert(all[j] == entry);
            let i = choose|i: int|
                0 <= i < rest.len() && (#[trigger] rest[i]).downstream_actor_id == to && entry == (
                    rest[i].fragment_id,
                    rest[i].dispatcher_id,
                    rest[i].dispatcher_type,
                );
            assert(ls[i] == rest[i]);
        }
        if all.contains(entry) && !before.contains(entry) {
            let j = choose|j: int| 0 <= j < all.len() && all[j] == entry;
            if j < before.len() {
                assert(before[j] == entry);
            }
            assert(ls[n].downstream_actor_id == to);
        }
        if exists|i: int|
            0 <= i < ls.len() && (#[trigger] ls[i]).downstream_actor_id == to && entry == (
                ls[i].fragment_id,
                ls[i].dispatcher_id,
                ls[i].dispatcher_type,
            ) {
            let i = choose|i: int|
                0 <= i < ls.len() && (#[trigger] ls[i]).downstream_actor_id == to && entry == (
                    ls[i].fragment_id,
                    ls[i].dispatcher_id,
                    ls[i].dispatcher_type,
                );
            if i < n {
                assert(rest[i] == ls[i]);
            } else {
                assert(all[before.len() as int] == entry);
            }
        }
    }
}

proof fn lemma_between(
    ids: Seq<u32>,
    up: u32,
    f: u32,
    places: Map<u32, Map<u32, u32>>,
    p: NoShufflePair,
)
    ensures
        pairs_between(ids, up, f, places).contains(p) <==> p.upstream_fragment_id == up
            && p.fragment_id == f && ids.contains(p.upstream_actor_id) && p.actor_id == actor_at(
            places[f],
            places[up][p.upstream_actor_id],
        )->Some_0,
    decreases ids.len(),
{
    if ids.len() > 0 {
        let rest = ids.drop_last();
        let n = ids.len() - 1;
        lemma_between(rest, up, f, places, p);
        let before = pairs_between(rest, up, f, places);
        let all = pairs_between(ids, up, f, places);
        if before.contains(p) {
            let i = choose|i: int| 0 <= i < before.len() && before[i] == p;
            assert(all[i] == p);
            let j = choose|j: int| 0 <= j < rest.len() && rest[j] == p.upstream_actor_id;
            assert(ids[j] == p.upstream_actor_id);
        }
        if all.contains(p) && !before.contains(p) {
            let i = choose|i: int| 0 <= i < all.len() && all[i] == p;
            if i < before.len() {
                assert(before[i] == p);
            }
            assert(ids[n] == p.upstream_actor_id);
        }
        if ids.contains(p.upstream_actor_id) {
            let j = choose|j: int| 0 <= j < ids.len() && ids[j] == p.upstream_actor_id;
            if j < n {
                assert(rest[j] == p.upstream_actor_id);
            } else if p.upstream_fragment_id == up && p.fragment_id == f && p.actor_id == actor_at(
                places[f],
                places[up][p.upstream_actor_id],
            )->Some_0 {
                assert(all[before.len() as int] == p);
            }
        }
    }
}

proof fn lemma_from(
    fs: Seq<u32>,
    up: u32,
    index: Map<u32, Map<u32, DispatcherType>>,
    sources: Set<u32>,
    targets: Set<u32>,
    places: Map<u32, Map<u32, u32>>,
    p: NoShufflePair,
)
    ensures
        pairs_from(fs, up, index, sources, targets, places).contains(p) <==> fs.contains(
            p.fragment_id,
        ) && is_followed_edge(index, sources, targets, up, p.fragment_id) && pairs_between(
            ascending_of(places[up].dom()),
            up,
            p.fragment_id,
            places,
        ).contains(p),
    decreases fs.len(),
{
    if fs.len() > 0 {
        let rest = fs.drop_last();
        let n = fs.len() - 1;
        let f = fs[n];
        let ids = ascending_of(places[up].dom());
        lemma_from(rest, up, index, sources, targets, places, p);
        let before = pairs_from(rest, up, index, sources, targets, places);
        let all = pairs_from(fs, up, index, sources, targets, places);
        let own = pairs_between(ids, up, f, places);
        lemma_between(ids, up, f, places, p);
        if all.contains(p) {
            let i = choose|i: int| 0 <= i < all.len() && all[i] == p;
            if i < before.len() {
                assert(before[i] == p);
                let j = choose|j: int| 0 <= j < rest.len() && rest[j] == p.fragment_id;
                assert(fs[j] == p.fragment_id);
            } else {
                assert(own[i - before.len()] == p);
                assert(fs[n] == p.fragment_id);
            }
        }
        if fs.contains(p.fragment_id) && is_followed_edge(index, sources, targets, up, p.fragment_id)
            && pairs_between(ids, up, p.fragment_id, places).contains(p) {
            let j = choose|j: int| 0 <= j < fs.len() && fs[j] == p.fragment_id;
            if j < n {
                assert(rest[j] == p.fragment_id);
                let i = choose|i: int| 0 <= i < before.len() && before[i] == p;
                assert(all[i] == p);
            } else {
                let i = choose|i: int| 0 <= i < own.len() && own[i] == p;
                assert(all[before.len() + i] == p);
            }
        }
    }
}

proof fn lemma_all(
    ids: Seq<u32>,
    index: Map<u32, Map<u32, DispatcherType>>,
    sources: Set<u32>,
    targets: Set<u32>,
    places: Map<u32, Map<u32, u32>>,
    p: NoShufflePair,
)
    ensures
        all_pairs(ids, index, sources, targets, places).contains(p) <==> ids.contains(
            p.upstream_fragment_id,
        ) && index.contains_key(p.upstream_fragment_id) && pairs_from(
            ascending_of(index[p.upstream_fragment_id].dom()),
            p.upstream_fragment_id,
            index,
            sources,
            targets,
            places,
        ).contains(p),
    decreases ids.len(),
{
    if ids.len() > 0 {
        let rest = ids.drop_last();
        let n = ids.len() - 1;
        let up = ids[n];
        lemma_all(rest, index, sources, targets, places, p);
        let fs = ascending_of(index[up].dom());
        let before = all_pairs(rest, index, sources, targets, places);
        let all = all_pairs(ids, index, sources, targets, places);
        let own = pairs_from(fs, up, index, sources, targets, places);
        lemma_from(fs, up, index, sources, targets, places, p);
        lemma_between(ascending_of(places[up].dom()), up, p.fragment_id, places, p);
        if all.contains(p) {
            let i = choose|i: int| 0 <= i < all.len() && all[i] == p;
            if i < before.len() {
                assert(before[i] == p);
                let j = choose|j: int| 0 <= j < rest.len() && rest[j] == p.upstream_fragment_id;
                assert(ids[j] == p.upstream_fragment_id);
            } else {
                assert(own[i - before.len()] == p);
                assert(ids[n] == p.upstream_fragment_id);
            }
        }
        if ids.contains(p.upstream_fragment_id) && index.contains_key(p.upstream_fragment_id)
            && pairs_from(
            ascending_of(index[p.upstream_fragment_id].dom()),
            p.upstream_fragment_id,
            index,
            sources,
            targets,
            places,
        ).contains(p) {
            let j = choose|j: int| 0 <= j < ids.len() && ids[j] == p.upstream_fragment_id;
            if j < n {
                assert(rest[j] == p.upstream_fragment_id);
                let i = choose|i: int| 0 <= i < before.len() && before[i] == p;
                assert(all[i] == p);
            } else {
                let i = choose|i: int| 0 <= i < own.len() && own[i] == p;
                assert(all[before.len() + i] == p);
            }
        }
    }
}

/// A plan follows the edge between the fragments: the second follows some fragment, and the first is one that
/// others follow and that follows none, or the edge joins actors one to one.
pub open spec fn followed(ctx: &RescheduleContext, up: u32, f: u32) -> bool {
    &&& ctx.fragment_dispatcher_map@.contains_key(up)
    &&& ctx.fragment_dispatcher_map@[up]@.contains_key(f)
    &&& ctx.no_shuffle_target_fragment_ids@.contains(f)
    &&& if ctx.no_shuffle_target_fragment_ids@.contains(up) {
        ctx.fragment_dispatcher_map@[up]@[f] == DispatcherType::NoShuffle
    } else {
        ctx.no_shuffle_source_fragment_ids@.contains(up)
    }
}

/// The actors of a pair stand on one parallel unit, and their fragments are joined by an edge that the plan follows.
/// Every actor at the start of such an edge is in a pair.
pub proof fn lemma_pairs_on_one_unit(
    reschedule: &BTreeMap<u32, ParallelUnitReschedule>,
    ctx: &RescheduleContext,
    places: &BTreeMap<u32, BTreeMap<u32, u32>>,
    res: Vec<NoShufflePair>,
    p: NoShufflePair,
    up: u32,
    f: u32,
    a: u32,
)
    requires
        call_ensures(collect_pairs, (reschedule, ctx, places), res),
        edges_aligned(
            reschedule@.dom(),
            dispatcher_index(ctx.fragment_dispatcher_map@),
            ctx.no_shuffle_source_fragment_ids@,
            ctx.no_shuffle_target_fragment_ids@,
            nested(places@),
        ),
    ensures
        res@.contains(p) ==> {
            &&& reschedule@.contains_key(p.upstream_fragment_id)
            &&& followed(ctx, p.upstream_fragment_id, p.fragment_id)
            &&& places@[p.upstream_fragment_id]@.contains_key(p.upstream_actor_id)
            &&& places@[p.fragment_id]@.contains_key(p.actor_id)
            &&& places@[p.fragment_id]@[p.actor_id]
                == places@[p.upstream_fragment_id]@[p.upstream_actor_id]
        },
        reschedule@.contains_key(up) && followed(ctx, up, f) && places@[up]@.contains_key(a)
            ==> exists|i: int|
            0 <= i < res@.len() && (#[trigger] res@[i]).upstream_fragment_id == up
                && res@[i].upstream_actor_id == a && res@[i].fragment_id == f,
{
    let index = dispatcher_index(ctx.fragment_dispatcher_map@);
    let sources = ctx.no_shuffle_source_fragment_ids@;
    let targets = ctx.no_shuffle_target_fragment_ids@;
    let spots = nested(places@);
    let ids = ascending_of(reschedule@.dom());
    lemma_ascending_exists(reschedule@.dom());
    if res@.contains(p) {
        let u = p.upstream_fragment_id;
        lemma_all(ids, index, sources, targets, spots, p);
        assert(ids.to_set().contains(u));
        lemma_from(ascending_of(index[u].dom()), u, index, sources, targets, spots, p);
        assert(is_followed_edge(index, sources, targets, u, p.fragment_id));
        lemma_ascending_exists(places@[u]@.dom());
        lemma_between(ascending_of(spots[u].dom()), u, p.fragment_id, spots, p);
        assert(ascending_of(spots[u].dom()).to_set().contains(p.upstream_actor_id));
        assert(spots[u].contains_key(p.upstream_actor_id));
        lemma_actor_at(spots[p.fragment_id], spots[u][p.upstream_actor_id]);
    }
    if reschedule@.contains_key(up) && followed(ctx, up, f) && places@[up]@.contains_key(a) {
        assert(is_followed_edge(index, sources, targets, up, f));
        assert(spots.contains_key(up) && spots.contains_key(f));
        let q = NoShufflePair {
            upstream_fragment_id: up,
            upstream_actor_id: a,
            fragment_id: f,
            actor_id: actor_at(spots[f], spots[up][a])->Some_0,
        };
        lemma_ascending_exists(spots[up].dom());
        assert(ascending_of(spots[up].dom()).to_set().contains(a));
        lemma_between(ascending_of(spots[up].dom()), up, f, spots, q);
        lemma_ascending_exists(index[up].dom());
        assert(ascending_of(index[up].dom()).to_set().contains(f));
        lemma_from(ascending_of(index[up].dom()), up, index, sources, targets, spots, q);
        assert(ids.to_set().contains(up));
        lemma_all(ids, index, sources, targets, spots, q);
        let i = choose|i: int| 0 <= i < res@.len() && res@[i] == q;
        assert(res@[i].upstream_fragment_id == up);
    }
}

/// The actor before an actor is the one that the last pair of the two fragments names, and likewise the actor after
/// it; where no pair names one there is none.
pub proof fn lemma_paired_with(
    pairs: &Vec<NoShufflePair>,
    actor_id: u32,
    fragment_id: u32,
    before: Option<u32>,
    after: Option<u32>,
    k: int,
)
    requires
        call_ensures(find_upstream_actor, (pairs, actor_id, fragment_id), before),
        call_ensures(find_downstream_actor, (pairs, actor_id, fragment_id), after),
        0 <= k < pairs@.len(),
    ensures
        pairs@[k].actor_id == actor_id && pairs@[k].upstream_fragment_id == fragment_id && (forall|
            l: int,
        |
            k < l < pairs@.len() ==> !((#[trigger] pairs@[l]).actor_id == actor_id
                && pairs@[l].upstream_fragment_id == fragment_id)) ==> before == Some(
            pairs@[k].upstream_actor_id,
        ),
        before is None ==> !(pairs@[k].actor_id == actor_id && pairs@[k].upstream_fragment_id
            == fragment_id),
        pairs@[k].upstream_actor_id == actor_id && pairs@[k].fragment_id == fragment_id && (forall|
            l: int,
        |
            k < l < pairs@.len() ==> !((#[trigger] pairs@[l]).upstream_actor_id == actor_id
                && pairs@[l].fragment_id == fragment_id)) ==> after == Some(pairs@[k].actor_id),
        after is None ==> !(pairs@[k].upstream_actor_id == actor_id && pairs@[k].fragment_id
            == fragment_id),
{
    lemma_last_pair(pairs@, actor_id, fragment_id, k);
}

proof fn lemma_last_pair(pairs: Seq<NoShufflePair>, actor_id: u32, fragment_id: u32, k: int)
    requires
        0 <= k < pairs.len(),
    ensures
        pairs[k].actor_id == actor_id && pairs[k].upstream_fragment_id == fragment_id && (forall|
            l: int,
        |
            k < l < pairs.len() ==> !((#[trigger] pairs[l]).actor_id == actor_id
                && pairs[l].upstream_fragment_id == fragment_id)) ==> upstream_actor(
            pairs,
            actor_id,
            fragment_id,
        ) == Some(pairs[k].upstream_actor_id),
        upstream_actor(pairs, actor_id, fragment_id) is None ==> !(pairs[k].actor_id == actor_id
            && pairs[k].upstream_fragment_id == fragment_id),
        pairs[k].upstream_actor_id == actor_id && pairs[k].fragment_id == fragment_id && (forall|
            l: int,
        |
            k < l < pairs.len() ==> !((#[trigger] pairs[l]).upstream_actor_id == actor_id
                && pairs[l].fragment_id == fragment_id)) ==> downstream_actor(
            pairs,
            actor_id,
            fragment_id,
        ) == Some(pairs[k].actor_id),
        downstream_actor(pairs, actor_id, fragment_id) is None ==> !(pairs[k].upstream_actor_id
            == actor_id && pairs[k].fragment_id == fragment_id),
    decreases pairs.len(),
{
    let n = pairs.len() - 1;
    if k < n {
        let rest = pairs.drop_last();
        assert(rest[k] == pairs[k]);
        assert(pairs[n] == pairs.last());
        lemma_last_pair(rest, actor_id, fragment_id, k);
        assert(forall|l: int| k < l < rest.len() ==> #[trigger] rest[l] == pairs[l]);
    }
}

} // verus!
