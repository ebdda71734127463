//! The dispatch edges between actors, and the indexes that scaling builds from them.
use crate::common::collections::{ascending, ascending_of, map_keys};
use crate::scale::model::{CustomActorInfo, Dispatcher, DispatcherType};
use std::collections::BTreeMap;
use std::collections::BTreeSet;
use vstd::prelude::*;

verus! {

broadcast use {
    vstd::std_specs::btree::group_btree_axioms,
    vstd::laws_cmp::group_laws_cmp,
};

/// One edge from an actor to a downstream actor.
#[derive(Clone, Copy, Debug, PartialEq, Eq, Structural)]
pub struct Link {
    pub actor_id: u32,
    pub fragment_id: u32,
    pub dispatcher_id: u64,
    pub dispatcher_type: DispatcherType,
    pub downstream_actor_id: u32,
}

/// The edges that start at one dispatcher.
pub open spec fn dispatcher_links(id: u32, actor: CustomActorInfo, d: Dispatcher) -> Seq<Link> {
    Seq::new(
        d.downstream_actor_id@.len(),
        |k: int|
            Link {
                actor_id: id,
                fragment_id: actor.fragment_id,
                dispatcher_id: d.dispatcher_id,
                dispatcher_type: d.dispatcher_type,
                downstream_actor_id: d.downstream_actor_id@[k],
            },
    )
}

/// The edges that start at the first `n` dispatchers of an actor.
pub open spec fn actor_links(id: u32, actor: CustomActorInfo, n: nat) -> Seq<Link>
    decreases n,
{
    if n == 0 {
        Seq::empty()
    } else {
        actor_links(id, actor, (n - 1) as nat) + dispatcher_links(
            id,
            actor,
            actor.dispatcher@[n - 1],
        )
    }
}

/// The edges that start at the given actors, in this order.
pub open spec fn links_from(ids: Seq<u32>, actors: Map<u32, &CustomActorInfo>) -> Seq<Link>
    decreases ids.len(),
{
    if ids.len() == 0 {
        Seq::empty()
    } else {
        links_from(ids.drop_last(), actors) + actor_links(
            ids.last(),
            *actors[ids.last()],
            actors[ids.last()].dispatcher@.len(),
        )
    }
}

/// All edges, by ascending id of the actor they start at.
pub open spec fn links(actors: Map<u32, &CustomActorInfo>) -> Seq<Link> {
    links_from(ascending_of(actors.dom()), actors)
}

/// Appends the edges that start at one actor.
fn push_actor_links(res: &mut Vec<Link>, id: u32, actor: &CustomActorInfo)
    ensures
        final(res)@ == old(res)@ + actor_links(id, *actor, actor.dispatcher@.len()),
{
    let ghost before = res@;
    let mut i: usize = 0;
    assert(before + actor_links(id, *actor, 0) =~= before);
    while i < actor.dispatcher.len()
        invariant
            i <= actor.dispatcher.len(),
            res@ == before + actor_links(id, *actor, i as nat),
        decreases actor.dispatcher.len() - i,
    {
        let d = &actor.dispatcher[i];
        let ghost mid = res@;
        let mut k: usize = 0;
        assert(mid + dispatcher_links(id, *actor, *d).take(0) =~= mid);
        while k < d.downstream_actor_id.len()
            invariant
                k <= d.downstream_actor_id.len(),
                res@ == mid + dispatcher_links(id, *actor, *d).take(k as int),
            decreases d.downstream_actor_id.len() - k,
        {
            let link = Link {
                actor_id: id,
                fragment_id: actor.fragment_id,
                dispatcher_id: d.dispatcher_id,
                dispatcher_type: d.dispatcher_type,
                downstream_actor_id: d.downstream_actor_id[k],
            };
            res.push(link);
            assert(dispatcher_links(id, *actor, *d).take(k + 1) =~= dispatcher_links(
                id,
                *actor,
                *d,
            ).take(k as int).push(link));
            assert(res@ =~= mid + dispatcher_links(id, *actor, *d).take(k + 1));
            k = k + 1;
        }
        assert(dispatcher_links(id, *actor, *d).take(k as int) =~= dispatcher_links(
            id,
            *actor,
            *d,
        ));
        assert(res@ =~= before + actor_links(id, *actor, (i + 1) as nat));
        i = i + 1;
    }
}

/// The edges that start at the given actors, in this order.
fn collect_links_from(ids: &Vec<u32>, actor_map: &BTreeMap<u32, &CustomActorInfo>) -> (res: Vec<
    Link,
>)
    requires
        forall|i: int| 0 <= i < ids@.len() ==> actor_map@.contains_key(#[trigger] ids@[i]),
    ensures
        res@ == links_from(ids@, actor_map@),
{
    let mut res: Vec<Link> = Vec::new();
    let mut i: usize = 0;
    assert(ids@.take(0) =~= Seq::<u32>::empty());
    while i < ids.len()
        invariant
            i <= ids.len(),
            forall|i: int| 0 <= i < ids@.len() ==> actor_map@.contains_key(#[trigger] ids@[i]),
            res@ == links_from(ids@.take(i as int), actor_map@),
        decreases ids.len() - i,
    {
        assert(actor_map@.contains_key(ids@[i as int]));
        let actor: &CustomActorInfo = *actor_map.get(&ids[i]).unwrap();
        push_actor_links(&mut res, ids[i], actor);
        assert(ids@.take(i + 1).drop_last() =~= ids@.take(i as int));
        i = i + 1;
    }
    assert(ids@.take(i as int) =~= ids@);
    res
}

/// All edges, by ascending id of the actor they start at.
pub fn collect_links(actor_map: &BTreeMap<u32, &CustomActorInfo>) -> (res: Vec<Link>)
    ensures
        res@ == links(actor_map@),
{
    let ids = map_keys(actor_map);
    assert forall|i: int| 0 <= i < ids@.len() implies actor_map@.contains_key(#[trigger] ids@[i]) by {
        assert(ids@.to_set().contains(ids@[i]));
    }
    collect_links_from(&ids, actor_map)
}

/// The actor has the smallest id in its fragment.
pub open spec fn is_first_actor(actors: Map<u32, &CustomActorInfo>, id: u32) -> bool {
    actors.contains_key(id) && forall|b: u32|
        b < id && #[trigger] actors.contains_key(b) ==> actors[b].fragment_id
            != actors[id].fragment_id
}

/// One actor of each fragment: the one with the smallest id.
pub open spec fn first_actors(actors: Map<u32, &CustomActorInfo>) -> Seq<u32> {
    ascending_of(actors.dom()).filter(|id: u32| is_first_actor(actors, id))
}

/// The edge is a `NoShuffle` one and its downstream actor is known.
pub open spec fn is_no_shuffle(actors: Map<u32, &CustomActorInfo>, link: Link) -> bool {
    link.dispatcher_type == DispatcherType::NoShuffle && actors.contains_key(
        link.downstream_actor_id,
    )
}

/// The fragments that `NoShuffle` edges start at.
pub open spec fn no_shuffle_sources(actors: Map<u32, &CustomActorInfo>, ls: Seq<Link>) -> Set<u32> {
    Set::new(
        |f: u32|
            exists|i: int|
                0 <= i < ls.len() && is_no_shuffle(actors, #[trigger] ls[i]) && ls[i].fragment_id
                    == f,
    )
}

/// The fragments that `NoShuffle` edges lead to.
pub open spec fn no_shuffle_targets(actors: Map<u32, &CustomActorInfo>, ls: Seq<Link>) -> Set<u32> {
    Set::new(
        |f: u32|
            exists|i: int|
                0 <= i < ls.len() && is_no_shuffle(actors, #[trigger] ls[i])
                    && actors[ls[i].downstream_actor_id].fragment_id == f,
    )
}

/// The ids of one actor of each fragment.
fn collect_first_actors(actor_map: &BTreeMap<u32, &CustomActorInfo>) -> (res: Vec<u32>)
    ensures
        res@ == first_actors(actor_map@),
        forall|i: int| 0 <= i < res@.len() ==> actor_map@.contains_key(#[trigger] res@[i]),
{
    let ids = map_keys(actor_map);
    let ghost pred = |id: u32| is_first_actor(actor_map@, id);
    let mut seen: BTreeSet<u32> = BTreeSet::new();
    let mut res: Vec<u32> = Vec::new();
    let mut i: usize = 0;
    proof {
        reveal(Seq::filter);
        assert(ids@.take(0).filter(pred) =~= Seq::<u32>::empty());
    }
    while i < ids.len()
        invariant
            i <= ids.len(),
            ascending(ids@),
            ids@.to_set() == actor_map@.dom(),
            pred == (|id: u32| is_first_actor(actor_map@, id)),
            res@ == ids@.take(i as int).filter(pred),
            forall|f: u32| #[trigger]
                seen@.contains(f) <==> exists|j: int|
                    0 <= j < i && actor_map@[#[trigger] ids@[j]].fragment_id == f,
            forall|k: int| 0 <= k < res@.len() ==> actor_map@.contains_key(#[trigger] res@[k]),
        decreases ids.len() - i,
    {
        let id: u32 = ids[i];
        assert(ids@.to_set().contains(ids@[i as int]));
        assert(actor_map@.contains_key(id));
        let fragment_id: u32 = actor_map.get(&id).unwrap().fragment_id;
        let ghost seen0 = seen@;
        proof {
            reveal(Seq::filter);
            assert(ids@.take(i + 1).drop_last() =~= ids@.take(i as int));
            assert(ids@.take(i + 1).last() == id);
            if seen@.contains(fragment_id) {
                let j = choose|j: int|
                    0 <= j < i && actor_map@[#[trigger] ids@[j]].fragment_id == fragment_id;
                assert(ids@.to_set().contains(ids@[j]));
                assert(!is_first_actor(actor_map@, id));
            } else {
                assert forall|b: u32| b < id && #[trigger] actor_map@.contains_key(
                    b,
                ) implies actor_map@[b].fragment_id != fragment_id by {
                    assert(ids@.to_set().contains(b));
                    let j = ids@.index_of(b);
                    assert(ids@[j] == b);
                    assert(j < i);
                }
            }
        }
        if !seen.contains(&fragment_id) {
            res.push(id);
            seen.insert(fragment_id);
        }
        proof {
            assert forall|f: u32| #[trigger] seen@.contains(f) <==> exists|j: int|
                0 <= j < i + 1 && actor_map@[#[trigger] ids@[j]].fragment_id == f by {
                if seen@.contains(f) {
                    if seen0.contains(f) {
                        let j = choose|j: int|
                            0 <= j < i && actor_map@[#[trigger] ids@[j]].fragment_id == f;
                        assert(0 <= j < i + 1 && actor_map@[ids@[j]].fragment_id == f);
                    } else {
                        assert(actor_map@[ids@[i as int]].fragment_id == f);
                    }
                }
            }
        }
        i = i + 1;
    }
    assert(ids@.take(i as int) =~= ids@);
    res
}

/// Adds the fragments at both ends of `NoShuffle` edges to the two sets. One actor stands for
/// each fragment.
pub fn build_no_shuffle_relation_index(
    actor_map: &BTreeMap<u32, &CustomActorInfo>,
    no_shuffle_source_fragment_ids: &mut BTreeSet<u32>,
    no_shuffle_target_fragment_ids: &mut BTreeSet<u32>,
)
    ensures
        final(no_shuffle_source_fragment_ids)@ == old(no_shuffle_source_fragment_ids)@.union(
            no_shuffle_sources(actor_map@, links_from(first_actors(actor_map@), actor_map@)),
        ),
        final(no_shuffle_target_fragment_ids)@ == old(no_shuffle_target_fragment_ids)@.union(
            no_shuffle_targets(actor_map@, links_from(first_actors(actor_map@), actor_map@)),
        ),
{
    let firsts = collect_first_actors(actor_map);
    let ls = collect_links_from(&firsts, actor_map);
    let mut i: usize = 0;
    proof {
        let none = ls@.take(0);
        assert(no_shuffle_source_fragment_ids@.union(no_shuffle_sources(actor_map@, none))
            =~= no_shuffle_source_fragment_ids@);
        assert(no_shuffle_target_fragment_ids@.union(no_shuffle_targets(actor_map@, none))
            =~= no_shuffle_target_fragment_ids@);
    }
    while i < ls.len()
        invariant
            i <= ls.len(),
            no_shuffle_source_fragment_ids@ == old(no_shuffle_source_fragment_ids)@.union(
                no_shuffle_sources(actor_map@, ls@.take(i as int)),
            ),
            no_shuffle_target_fragment_ids@ == old(no_shuffle_target_fragment_ids)@.union(
                no_shuffle_targets(actor_map@, ls@.take(i as int)),
            ),
        decreases ls.len() - i,
    {
        let link: Link = ls[i];
        let mut found = false;
        if link.dispatcher_type == DispatcherType::NoShuffle {
            if let Some(downstream) = actor_map.get(&link.downstream_actor_id) {
                no_shuffle_source_fragment_ids.insert(link.fragment_id);
                no_shuffle_target_fragment_ids.insert(downstream.fragment_id);
                found = true;
            }
        }
        proof {
            let a = ls@.take(i as int);
            let b = ls@.take(i + 1);
            assert(b =~= a.push(link));
            lemma_no_shuffle_push(actor_map@, a, link);
            assert(found == is_no_shuffle(actor_map@, link));
            assert(no_shuffle_source_fragment_ids@ =~= old(no_shuffle_source_fragment_ids)@.union(
                no_shuffle_sources(actor_map@, b),
            ));
            assert(no_shuffle_target_fragment_ids@ =~= old(no_shuffle_target_fragment_ids)@.union(
                no_shuffle_targets(actor_map@, b),
            ));
        }
        i = i + 1;
    }
    assert(ls@.take(i as int) =~= ls@);
}

proof fn lemma_no_shuffle_push(actors: Map<u32, &CustomActorInfo>, ls: Seq<Link>, link: Link)
    ensures
        no_shuffle_sources(actors, ls.push(link)) == (if is_no_shuffle(actors, link) {
            no_shuffle_sources(actors, ls).insert(link.fragment_id)
        } else {
            no_shuffle_sources(actors, ls)
        }),
        no_shuffle_targets(actors, ls.push(link)) == (if is_no_shuffle(actors, link) {
            no_shuffle_targets(actors, ls).insert(actors[link.downstream_actor_id].fragment_id)
        } else {
            no_shuffle_targets(actors, ls)
        }),
{
    let t = ls.push(link);
    let ss = if is_no_shuffle(actors, link) {
        no_shuffle_sources(actors, ls).insert(link.fragment_id)
    } else {
        no_shuffle_sources(actors, ls)
    };
    let ts = if is_no_shuffle(actors, link) {
        no_shuffle_targets(actors, ls).insert(actors[link.downstream_actor_id].fragment_id)
    } else {
        no_shuffle_targets(actors, ls)
    };
    assert(t[ls.len() as int] == link);
    assert(forall|i: int| 0 <= i < ls.len() ==> #[trigger] t[i] == ls[i]);
    assert forall|f: u32| no_shuffle_sources(actors, t).contains(f) <==> ss.contains(f) by {
        if no_shuffle_sources(actors, ls).contains(f) {
            let i = choose|i: int|
                0 <= i < ls.len() && is_no_shuffle(actors, #[trigger] ls[i]) && ls[i].fragment_id
                    == f;
            assert(t[i] == ls[i]);
        }
        if no_shuffle_sources(actors, t).contains(f) {
            let i = choose|i: int|
                0 <= i < t.len() && is_no_shuffle(actors, #[trigger] t[i]) && t[i].fragment_id == f;
            if i < ls.len() {
                assert(t[i] == ls[i]);
            }
        }
    }
    assert(no_shuffle_sources(actors, t) =~= ss);
    assert forall|f: u32| no_shuffle_targets(actors, t).contains(f) <==> ts.contains(f) by {
        if no_shuffle_targets(actors, ls).contains(f) {
            let i = choose|i: int|
                0 <= i < ls.len() && is_no_shuffle(actors, #[trigger] ls[i])
                    && actors[ls[i].downstream_actor_id].fragment_id == f;
            assert(t[i] == ls[i]);
        }
        if no_shuffle_targets(actors, t).contains(f) {
            let i = choose|i: int|
                0 <= i < t.len() && is_no_shuffle(actors, #[trigger] t[i])
                    && actors[t[i].downstream_actor_id].fragment_id == f;
            if i < ls.len() {
                assert(t[i] == ls[i]);
            }
        }
    }
    assert(no_shuffle_targets(actors, t) =~= ts);
}

/// An index from upstream fragment to downstream fragment to the type of the dispatcher.
pub open spec fn dispatcher_index(m: Map<u32, BTreeMap<u32, DispatcherType>>) -> Map<
    u32,
    Map<u32, DispatcherType>,
> {
    Map::new(|k: u32| m.contains_key(k), |k: u32| m[k]@)
}

/// The index after the edge has been entered.
pub open spec fn index_link(
    index: Map<u32, Map<u32, DispatcherType>>,
    actors: Map<u32, &CustomActorInfo>,
    link: Link,
) -> Map<u32, Map<u32, DispatcherType>> {
    if actors.contains_key(link.downstream_actor_id) {
        let inner = if index.contains_key(link.fragment_id) {
            index[link.fragment_id]
        } else {
            Map::empty()
        };
        index.insert(
            link.fragment_id,
            inner.insert(actors[link.downstream_actor_id].fragment_id, link.dispatcher_type),
        )
    } else {
        index
    }
}

/// The index after the edges have been entered in order: of two edges between the same fragments
/// the later one counts.
pub open spec fn index_links(
    index: Map<u32, Map<u32, DispatcherType>>,
    actors: Map<u32, &CustomActorInfo>,
    ls: Seq<Link>,
) -> Map<u32, Map<u32, DispatcherType>>
    decreases ls.len(),
{
    if ls.len() == 0 {
        index
    } else {
        index_link(index_links(index, actors, ls.drop_last()), actors, ls.last())
    }
}

/// Enters the type of every dispatcher between known actors into the index.
pub fn build_fragment_dispatcher_index(
    actor_map: &BTreeMap<u32, &CustomActorInfo>,
    fragment_dispatcher_map: &mut BTreeMap<u32, BTreeMap<u32, DispatcherType>>,
)
    ensures
        dispatcher_index(final(fragment_dispatcher_map)@) == index_links(
            dispatcher_index(old(fragment_dispatcher_map)@),
            actor_map@,
            links(actor_map@),
        ),
{
    let ls = collect_links(actor_map);
    let ghost start = dispatcher_index(fragment_dispatcher_map@);
    let mut i: usize = 0;
    assert(ls@.take(0) =~= Seq::<Link>::empty());
    while i < ls.len()
        invariant
            i <= ls.len(),
            start == dispatcher_index(old(fragment_dispatcher_map)@),
            dispatcher_index(fragment_dispatcher_map@) == index_links(
                start,
                actor_map@,
                ls@.take(i as int),
            ),
        decreases ls.len() - i,
    {
        let link: Link = ls[i];
        let ghost m0 = fragment_dispatcher_map@;
        if let Some(downstream) = actor_map.get(&link.downstream_actor_id) {
            let mut inner = match fragment_dispatcher_map.remove(&link.fragment_id) {
                Some(inner) => inner,
                None => BTreeMap::new(),
            };
            inner.insert(downstream.fragment_id, link.dispatcher_type);
            fragment_dispatcher_map.insert(link.fragment_id, inner);
        }
        proof {
            assert(ls@.take(i + 1).drop_last() =~= ls@.take(i as int));
            assert(ls@.take(i + 1).last() == link);
            assert(dispatcher_index(fragment_dispatcher_map@) =~= index_link(
                dispatcher_index(m0),
                actor_map@,
                link,
            ));
        }
        i = i + 1;
    }
    assert(ls@.take(i as int) =~= ls@);
}

/// The edge leads from an actor of one fragment to a known actor of the other.
pub open spec fn joins(
    actors: Map<u32, &CustomActorInfo>,
    link: Link,
    from: u32,
    to: u32,
) -> bool {
    link.fragment_id == from && actors.contains_key(link.downstream_actor_id)
        && actors[link.downstream_actor_id].fragment_id == to
}

/// A pair of fragments is in the index exactly when it was there or an edge joins the two.
pub proof fn lemma_index_links(
    index: Map<u32, Map<u32, DispatcherType>>,
    actors: Map<u32, &CustomActorInfo>,
    ls: Seq<Link>,
    from: u32,
    to: u32,
)
    ensures
        (index_links(index, actors, ls).contains_key(from) && index_links(
            index,
            actors,
            ls,
        )[from].contains_key(to)) <==> ((index.contains_key(from) && index[from].contains_key(to))
            || exists|i: int| 0 <= i < ls.len() && joins(actors, #[trigger] ls[i], from, to)),
    decreases ls.len(),
{
    if ls.len() > 0 {
        let ls0 = ls.drop_last();
        lemma_index_links(index, actors, ls0, from, to);
        assert(ls[ls.len() - 1] == ls.last());
        if exists|i: int| 0 <= i < ls0.len() && joins(actors, #[trigger] ls0[i], from, to) {
            let i = choose|i: int| 0 <= i < ls0.len() && joins(actors, #[trigger] ls0[i], from, to);
            assert(joins(actors, ls[i], from, to));
        }
        if exists|i: int| 0 <= i < ls.len() && joins(actors, #[trigger] ls[i], from, to) {
            let i = choose|i: int| 0 <= i < ls.len() && joins(actors, #[trigger] ls[i], from, to);
            if i < ls0.len() {
                assert(joins(actors, ls0[i], from, to));
            }
        }
    }
}

/// What reaches an actor from upstream: the fragment, the dispatcher and its type, edge by edge.
pub open spec fn upstreams_of(ls: Seq<Link>, actor_id: u32) -> Seq<(u32, u64, DispatcherType)>
    decreases ls.len(),
{
    if ls.len() == 0 {
        Seq::empty()
    } else if ls.last().downstream_actor_id == actor_id {
        upstreams_of(ls.drop_last(), actor_id).push(
            (ls.last().fragment_id, ls.last().dispatcher_id, ls.last().dispatcher_type),
        )
    } else {
        upstreams_of(ls.drop_last(), actor_id)
    }
}

/// The map holds for each actor what reaches it from upstream, and no actor that nothing reaches.
pub open spec fn is_upstream_index(
    m: Map<u32, Vec<(u32, u64, DispatcherType)>>,
    ls: Seq<Link>,
) -> bool {
    forall|a: u32|
        (#[trigger] m.contains_key(a) <==> upstreams_of(ls, a).len() > 0) && (m.contains_key(a)
            ==> m[a]@ == upstreams_of(ls, a))
}

/// The index of all upstreams of every actor.
pub fn collect_upstream_dispatchers(actor_map: &BTreeMap<u32, &CustomActorInfo>) -> (res: BTreeMap<
    u32,
    Vec<(u32, u64, DispatcherType)>,
>)
    ensures
        is_upstream_index(res@, links(actor_map@)),
{
    let ls = collect_links(actor_map);
    let mut res: BTreeMap<u32, Vec<(u32, u64, DispatcherType)>> = BTreeMap::new();
    let mut i: usize = 0;
    while i < ls.len()
        invariant
            i <= ls.len(),
            is_upstream_index(res@, ls@.take(i as int)),
        decreases ls.len() - i,
    {
        let link: Link = ls[i];
        let mut list = match res.remove(&link.downstream_actor_id) {
            Some(list) => list,
            None => Vec::new(),
        };
        proof {
            assert(ls@.take(i + 1).drop_last() =~= ls@.take(i as int));
            assert(ls@.take(i + 1).last() == link);
            assert(list@ =~= upstreams_of(ls@.take(i as int), link.downstream_actor_id));
        }
        list.push((link.fragment_id, link.dispatcher_id, link.dispatcher_type));
        res.insert(link.downstream_actor_id, list);
        i = i + 1;
    }
    assert(ls@.take(i as int) =~= ls@);
    res
}

proof fn lemma_actor_links(id: u32, actor: CustomActorInfo, n: nat)
    ensures
        forall|i: int|
            0 <= i < actor_links(id, actor, n).len() ==> (#[trigger] actor_links(
                id,
                actor,
                n,
            )[i]).actor_id == id && actor_links(id, actor, n)[i].fragment_id == actor.fragment_id,
    decreases n,
{
    if n > 0 {
        lemma_actor_links(id, actor, (n - 1) as nat);
    }
}

/// Every edge starts at one of the actors, in the fragment of that actor.
pub proof fn lemma_links_from(ids: Seq<u32>, actors: Map<u32, &CustomActorInfo>)
    ensures
        forall|i: int|
            0 <= i < links_from(ids, actors).len() ==> ids.contains(
                (#[trigger] links_from(ids, actors)[i]).actor_id,
            ) && links_from(ids, actors)[i].fragment_id == actors[links_from(
                ids,
                actors,
            )[i].actor_id].fragment_id,
    decreases ids.len(),
{
    if ids.len() > 0 {
        let ids0 = ids.drop_last();
        lemma_links_from(ids0, actors);
        lemma_actor_links(ids.last(), *actors[ids.last()], actors[ids.last()].dispatcher@.len());
        let l0 = links_from(ids0, actors);
        let l = links_from(ids, actors);
        assert forall|i: int| 0 <= i < l.len() implies ids.contains((#[trigger] l[i]).actor_id)
            && l[i].fragment_id == actors[l[i].actor_id].fragment_id by {
            if i < l0.len() {
                assert(l[i] == l0[i]);
                let k = ids0.index_of(l0[i].actor_id);
                assert(ids[k] == l[i].actor_id);
            } else {
                assert(l[i] == actor_links(
                    ids.last(),
                    *actors[ids.last()],
                    actors[ids.last()].dispatcher@.len(),
                )[i - l0.len()]);
                assert(ids[ids.len() - 1] == l[i].actor_id);
            }
        }
    }
}

} // verus!
