//! How a new actor is wired to the actors around it, said of these actors one by one.
use crate::common::bitmap::Bitmap;
use crate::common::collections::{ascending_of, lemma_ascending_exists};
use crate::scale::actors::{applied_upstreams, flatten, fragment_of_first, is_new_dispatcher};
use crate::scale::actors::{modify_actor_upstream_and_downstream, rewired};
use crate::scale::actors::{staying_actors, staying_ids, upstreams_in};
use crate::scale::arrange::{inner, nested};
use crate::scale::context::RescheduleContext;
use crate::scale::links::dispatcher_index;
use crate::scale::model::{CustomActorInfo, DispatcherType, NodeBody, StreamActor, StreamNode};
use crate::scale::relation::{bits_of, downstream_actor, upstream_actor, NoShufflePair};
use std::collections::BTreeMap;
use vstd::prelude::*;

verus! {

broadcast use {vstd::std_specs::btree::group_btree_axioms, vstd::laws_cmp::group_laws_cmp};

/// The actor is listed under the fragment.
pub open spec fn listed(m: Map<u32, BTreeMap<u32, u32>>, f: u32, a: u32) -> bool {
    m.contains_key(f) && m[f]@.contains_key(a)
}

proof fn lemma_staying_ids(ids: Seq<u32>, removed: Map<u32, u32>, x: u32)
    ensures
        staying_ids(ids, removed).contains(x) <==> ids.contains(x) && !removed.contains_key(x),
    decreases ids.len(),
{
    if ids.len() > 0 {
        let front = ids.drop_last();
        let before = staying_ids(front, removed);
        lemma_staying_ids(front, removed, x);
        assert(ids[ids.len() - 1] == ids.last());
        if ids.contains(x) && ids.last() != x {
            let i = ids.index_of(x);
            assert(front[i] == x);
        }
        if front.contains(x) {
            assert(ids[front.index_of(x)] == x);
        }
        if !removed.contains_key(ids.last()) {
            let now = staying_ids(ids, removed);
            assert(now[before.len() as int] == ids.last());
            if before.contains(x) {
                assert(now[before.index_of(x)] == x);
            }
        }
    } else {
        assert(!ids.contains(x));
        assert(!staying_ids(ids, removed).contains(x));
    }
}

proof fn lemma_staying_actors(actors: Seq<CustomActorInfo>, removed: Map<u32, u32>, x: u32)
    ensures
        staying_actors(actors, removed).contains(x) <==> !removed.contains_key(x) && exists|j: int|
            0 <= j < actors.len() && (#[trigger] actors[j]).actor_id == x,
    decreases actors.len(),
{
    if actors.len() > 0 {
        let front = actors.drop_last();
        let before = staying_actors(front, removed);
        let n = actors.len() - 1;
        lemma_staying_actors(front, removed, x);
        assert(actors[n] == actors.last());
        if exists|j: int| 0 <= j < actors.len() && (#[trigger] actors[j]).actor_id == x {
            let j = choose|j: int| 0 <= j < actors.len() && (#[trigger] actors[j]).actor_id == x;
            if j < n {
                assert(front[j].actor_id == x);
            }
        }
        if exists|j: int| 0 <= j < front.len() && (#[trigger] front[j]).actor_id == x {
            let j = choose|j: int| 0 <= j < front.len() && (#[trigger] front[j]).actor_id == x;
            assert(actors[j].actor_id == x);
        }
        if !removed.contains_key(actors.last().actor_id) {
            let now = staying_actors(actors, removed);
            assert(now[before.len() as int] == actors.last().actor_id);
            if before.contains(x) {
                assert(now[before.index_of(x)] == x);
            }
        }
    } else {
        assert(!staying_actors(actors, removed).contains(x));
    }
}

proof fn lemma_fragment_of_first(actors: Map<u32, &CustomActorInfo>, ids: Seq<u32>, g: u32)
    requires
        exists|k: int| 0 <= k < ids.len() && actors.contains_key(#[trigger] ids[k]),
        forall|k: int|
            0 <= k < ids.len() && actors.contains_key(#[trigger] ids[k])
                ==> actors[ids[k]].fragment_id == g,
    ensures
        fragment_of_first(actors, ids) == Some(g),
    decreases ids.len(),
{
    if !actors.contains_key(ids[0]) {
        let rest = ids.skip(1);
        let k = choose|k: int| 0 <= k < ids.len() && actors.contains_key(#[trigger] ids[k]);
        assert(rest[k - 1] == ids[k]);
        assert forall|k: int|
            0 <= k < rest.len() && actors.contains_key(
                #[trigger] rest[k],
            ) implies actors[rest[k]].fragment_id == g by {
            assert(rest[k] == ids[k + 1]);
        }
        lemma_fragment_of_first(actors, rest, g);
    }
}

proof fn lemma_upstream_actor(pairs: Seq<NoShufflePair>, a: u32, up: u32)
    ensures
        match upstream_actor(pairs, a, up) {
            Some(x) => exists|k: int|
                0 <= k < pairs.len() && (#[trigger] pairs[k]).actor_id == a
                    && pairs[k].upstream_fragment_id == up && pairs[k].upstream_actor_id == x,
            None => forall|k: int|
                0 <= k < pairs.len() ==> !((#[trigger] pairs[k]).actor_id == a
                    && pairs[k].upstream_fragment_id == up),
        },
    decreases pairs.len(),
{
    if pairs.len() > 0 {
        let front = pairs.drop_last();
        let n = pairs.len() - 1;
        lemma_upstream_actor(front, a, up);
        assert(pairs[n] == pairs.last());
        if !(pairs.last().actor_id == a && pairs.last().upstream_fragment_id == up) {
            match upstream_actor(front, a, up) {
                Some(x) => {
                    let k = choose|k: int|
                        0 <= k < front.len() && (#[trigger] front[k]).actor_id == a
                            && front[k].upstream_fragment_id == up && front[k].upstream_actor_id
                            == x;
                    assert(pairs[k] == front[k]);
                },
                None => {
                    assert forall|k: int| 0 <= k < pairs.len() implies !((
                    #[trigger] pairs[k]).actor_id == a && pairs[k].upstream_fragment_id == up) by {
                        if k < n {
                            assert(front[k] == pairs[k]);
                        }
                    }
                },
            }
        }
    }
}

proof fn lemma_downstream_actor(pairs: Seq<NoShufflePair>, a: u32, f: u32)
    ensures
        match downstream_actor(pairs, a, f) {
            Some(x) => exists|k: int|
                0 <= k < pairs.len() && (#[trigger] pairs[k]).upstream_actor_id == a
                    && pairs[k].fragment_id == f && pairs[k].actor_id == x,
            None => forall|k: int|
                0 <= k < pairs.len() ==> !((#[trigger] pairs[k]).upstream_actor_id == a
                    && pairs[k].fragment_id == f),
        },
    decreases pairs.len(),
{
    if pairs.len() > 0 {
        let front = pairs.drop_last();
        let n = pairs.len() - 1;
        lemma_downstream_actor(front, a, f);
        assert(pairs[n] == pairs.last());
        if !(pairs.last().upstream_actor_id == a && pairs.last().fragment_id == f) {
            match downstream_actor(front, a, f) {
                Some(x) => {
                    let k = choose|k: int|
                        0 <= k < front.len() && (#[trigger] front[k]).upstream_actor_id == a
                            && front[k].fragment_id == f && front[k].actor_id == x;
                    assert(pairs[k] == front[k]);
                },
                None => {
                    assert forall|k: int| 0 <= k < pairs.len() implies !((
                    #[trigger] pairs[k]).upstream_actor_id == a && pairs[k].fragment_id == f) by {
                        if k < n {
                            assert(front[k] == pairs[k]);
                        }
                    }
                },
            }
        }
    }
}

/// A dispatcher of a new actor is of the kind of the template's. One that is not one to one sends to the actors
/// that the template's sends to, without those that go, and to those that come to the fragment; one that is one
/// to one sends to the actor that is paired with the new one there. Owners are kept where the fragment is not
/// rescheduled.
pub proof fn lemma_new_dispatcher(
    ctx: &RescheduleContext,
    to_remove: &BTreeMap<u32, BTreeMap<u32, u32>>,
    to_create: &BTreeMap<u32, BTreeMap<u32, u32>>,
    bits: &BTreeMap<u32, BTreeMap<u32, Bitmap>>,
    pairs: &Vec<NoShufflePair>,
    template: &StreamActor,
    new_actor_id: u32,
    res: StreamActor,
    i: int,
    g: u32,
    x: u32,
)
    requires
        call_ensures(
            modify_actor_upstream_and_downstream,
            (ctx, to_remove, to_create, bits, pairs, template, new_actor_id),
            res,
        ),
        0 <= i < template.dispatcher@.len(),
        exists|k: int|
            0 <= k < template.dispatcher@[i].downstream_actor_id@.len()
                && ctx.actor_map@.contains_key(
                #[trigger] template.dispatcher@[i].downstream_actor_id@[k],
            ),
        forall|k: int|
            0 <= k < template.dispatcher@[i].downstream_actor_id@.len()
                && ctx.actor_map@.contains_key(
                #[trigger] template.dispatcher@[i].downstream_actor_id@[k],
            ) ==> ctx.actor_map@[template.dispatcher@[i].downstream_actor_id@[k]].fragment_id == g,
    ensures
        res.actor_id == new_actor_id,
        res.fragment_id == template.fragment_id,
        res.dispatcher@.len() == template.dispatcher@.len(),
        ({
            let from = template.dispatcher@[i];
            let to = res.dispatcher@[i];
            &&& to.dispatcher_type == from.dispatcher_type
            &&& to.dispatcher_id == from.dispatcher_id
            &&& from.dispatcher_type != DispatcherType::NoShuffle ==> (
            to.downstream_actor_id@.contains(x) <==> from.downstream_actor_id@.contains(x)
                && !listed(to_remove@, g, x) || listed(to_create@, g, x))
            &&& from.dispatcher_type == DispatcherType::NoShuffle ==> {
                &&& to.downstream_actor_id@.len() == 1
                &&& (exists|k: int|
                    0 <= k < pairs@.len() && (#[trigger] pairs@[k]).upstream_actor_id
                        == new_actor_id && pairs@[k].fragment_id == g) ==> exists|k: int|
                    0 <= k < pairs@.len() && (#[trigger] pairs@[k]).upstream_actor_id
                        == new_actor_id && pairs@[k].fragment_id == g && pairs@[k].actor_id
                        == to.downstream_actor_id@[0]
            }
            &&& from.hash_mapping is Some <==> to.hash_mapping is Some
            &&& from.hash_mapping is Some && !bits@.contains_key(g)
                ==> to.hash_mapping->Some_0.owners@ == from.hash_mapping->Some_0.owners@
            &&& from.hash_mapping is Some ==> to.hash_mapping->Some_0.owners@.len() == (
            if bits@.contains_key(g) {
                256
            } else {
                from.hash_mapping->Some_0.owners@.len()
            })
        }),
{
    let from = template.dispatcher@[i];
    let to = res.dispatcher@[i];
    let ids = from.downstream_actor_id@;
    assert(is_new_dispatcher(
        template.dispatcher@[i],
        res.dispatcher@[i],
        new_actor_id,
        ctx.actor_map@,
        nested(to_remove@),
        nested(to_create@),
        pairs@,
        bits_of(bits@),
    ));
    lemma_fragment_of_first(ctx.actor_map@, ids, g);
    let removed = inner(nested(to_remove@), g);
    let created = inner(nested(to_create@), g);
    assert(nested(to_remove@).contains_key(g) <==> to_remove@.contains_key(g));
    assert(nested(to_create@).contains_key(g) <==> to_create@.contains_key(g));
    assert(bits_of(bits@).contains_key(g) <==> bits@.contains_key(g));
    assert(created.dom().finite());
    lemma_ascending_exists(created.dom());
    let a = staying_ids(ids, removed);
    let b = ascending_of(created.dom());
    lemma_staying_ids(ids, removed, x);
    assert(b.contains(x) <==> created.contains_key(x)) by {
        assert(b.to_set().contains(x) <==> created.dom().contains(x));
    }
    lemma_concat_contains(a, b, x);
    lemma_downstream_actor(pairs@, new_actor_id, g);
}

proof fn lemma_concat_contains(a: Seq<u32>, b: Seq<u32>, x: u32)
    ensures
        (a + b).contains(x) <==> a.contains(x) || b.contains(x),
{
    let s = a + b;
    if s.contains(x) {
        let i = s.index_of(x);
        if i < a.len() {
            assert(a[i] == x);
        } else {
            assert(b[i - a.len()] == x);
        }
    }
    if a.contains(x) {
        assert(s[a.index_of(x)] == x);
    }
    if b.contains(x) {
        assert(s[a.len() + b.index_of(x)] == x);
    }
}

/// The actor is upstream of the new one in the given fragment: it is paired with it where rows come one to one;
/// else it is an actor of the fragment that stays, or one that comes to it.
pub open spec fn feeds(
    ctx: &RescheduleContext,
    to_remove: Map<u32, BTreeMap<u32, u32>>,
    to_create: Map<u32, BTreeMap<u32, u32>>,
    pairs: Seq<NoShufflePair>,
    f: u32,
    new_actor_id: u32,
    up: u32,
    x: u32,
) -> bool {
    if ctx.fragment_dispatcher_map@[up]@[f] == DispatcherType::NoShuffle {
        exists|k: int|
            0 <= k < pairs.len() && (#[trigger] pairs[k]).actor_id == new_actor_id
                && pairs[k].upstream_fragment_id == up && pairs[k].upstream_actor_id == x
    } else {
        listed(to_create, up, x) || !listed(to_remove, up, x) && exists|j: int|
            0 <= j < ctx.fragment_map@[up].actors@.len() && (
            #[trigger] ctx.fragment_map@[up].actors@[j]).actor_id == x
    }
}

proof fn lemma_feeds(
    ctx: &RescheduleContext,
    to_remove: Map<u32, BTreeMap<u32, u32>>,
    to_create: Map<u32, BTreeMap<u32, u32>>,
    pairs: Seq<NoShufflePair>,
    f: u32,
    new_actor_id: u32,
    up: u32,
    x: u32,
)
    requires
        ctx.fragment_dispatcher_map@.contains_key(up),
        ctx.fragment_dispatcher_map@[up]@[f] == DispatcherType::NoShuffle ==> exists|k: int|
            0 <= k < pairs.len() && (#[trigger] pairs[k]).actor_id == new_actor_id
                && pairs[k].upstream_fragment_id == up,
    ensures
        ({
            let list = upstreams_in(
                up,
                f,
                new_actor_id,
                ctx.fragment_map@,
                dispatcher_index(ctx.fragment_dispatcher_map@),
                nested(to_remove),
                nested(to_create),
                pairs,
            );
            &&& list.contains(x) ==> feeds(
                ctx,
                to_remove,
                to_create,
                pairs,
                f,
                new_actor_id,
                up,
                x,
            )
            &&& ctx.fragment_dispatcher_map@[up]@[f] != DispatcherType::NoShuffle && feeds(
                ctx,
                to_remove,
                to_create,
                pairs,
                f,
                new_actor_id,
                up,
                x,
            ) ==> list.contains(x)
            &&& ctx.fragment_dispatcher_map@[up]@[f] == DispatcherType::NoShuffle ==> list.len()
                == 1
        }),
{
    let index = dispatcher_index(ctx.fragment_dispatcher_map@);
    assert(index.contains_key(up));
    let removed = inner(nested(to_remove), up);
    let created = inner(nested(to_create), up);
    assert(nested(to_remove).contains_key(up) <==> to_remove.contains_key(up));
    assert(nested(to_create).contains_key(up) <==> to_create.contains_key(up));
    assert(created.dom().finite());
    lemma_ascending_exists(created.dom());
    let actors = ctx.fragment_map@[up].actors@;
    let a = staying_actors(actors, removed);
    let b = ascending_of(created.dom());
    lemma_staying_actors(actors, removed, x);
    assert(b.contains(x) <==> created.contains_key(x)) by {
        assert(b.to_set().contains(x) <==> created.dom().contains(x));
    }
    lemma_concat_contains(a, b, x);
    lemma_upstream_actor(pairs, new_actor_id, up);
    if exists|j: int|
        0 <= j < ctx.fragment_map@[up].actors@.len() && (
        #[trigger] ctx.fragment_map@[up].actors@[j]).actor_id == x {
        let j = choose|j: int|
            0 <= j < ctx.fragment_map@[up].actors@.len() && (
            #[trigger] ctx.fragment_map@[up].actors@[j]).actor_id == x;
        assert(actors[j].actor_id == x);
    }
    if a.contains(x) {
        let j = choose|j: int| 0 <= j < actors.len() && (#[trigger] actors[j]).actor_id == x;
        assert(ctx.fragment_map@[up].actors@[j].actor_id == x);
    }
}

/// What every upstream of a new actor has: a dispatcher to its fragment, and a pair where rows come one to one.
pub open spec fn upstreams_there(
    ctx: &RescheduleContext,
    pairs: Seq<NoShufflePair>,
    fragment_id: u32,
    new_actor_id: u32,
) -> bool {
    let fragment = ctx.fragment_map@[fragment_id];
    forall|i: int|
        0 <= i < fragment.upstream_fragment_ids@.len() ==> upstream_there(
            ctx,
            pairs,
            fragment.fragment_id,
            new_actor_id,
            #[trigger] fragment.upstream_fragment_ids@[i],
        )
}

pub open spec fn upstream_there(
    ctx: &RescheduleContext,
    pairs: Seq<NoShufflePair>,
    f: u32,
    new_actor_id: u32,
    up: u32,
) -> bool {
    ctx.fragment_dispatcher_map@.contains_key(up) && (ctx.fragment_dispatcher_map@[up]@[f]
        == DispatcherType::NoShuffle ==> exists|k: int|
        0 <= k < pairs.len() && (#[trigger] pairs[k]).actor_id == new_actor_id
            && pairs[k].upstream_fragment_id == up)
}

proof fn lemma_flatten(ids: Seq<u32>, m: Map<u32, Seq<u32>>, x: u32)
    ensures
        flatten(ids, m).contains(x) <==> exists|i: int|
            0 <= i < ids.len() && m[#[trigger] ids[i]].contains(x),
    decreases ids.len(),
{
    if ids.len() > 0 {
        let front = ids.drop_last();
        let n = ids.len() - 1;
        lemma_flatten(front, m, x);
        lemma_concat_contains(flatten(front, m), m[ids.last()], x);
        assert(ids[n] == ids.last());
        if flatten(front, m).contains(x) {
            let i = choose|i: int| 0 <= i < front.len() && m[#[trigger] front[i]].contains(x);
            assert(ids[i] == front[i]);
        }
        if exists|i: int| 0 <= i < ids.len() && m[#[trigger] ids[i]].contains(x) {
            let i = choose|i: int| 0 <= i < ids.len() && m[#[trigger] ids[i]].contains(x);
            if i < n {
                assert(front[i] == ids[i]);
            }
        }
    } else {
        assert(!flatten(ids, m).contains(x));
    }
}

/// The operator of a tree that is reached by going down the given inputs.
pub open spec fn node_at(node: StreamNode, path: Seq<int>) -> Option<StreamNode>
    decreases path.len(),
{
    if path.len() == 0 {
        Some(node)
    } else if 0 <= path[0] < node.input@.len() {
        node_at(node.input@[path[0]], path.skip(1))
    } else {
        None
    }
}

proof fn lemma_rewired_at(a: StreamNode, b: StreamNode, ups: Map<u32, Seq<u32>>, path: Seq<int>)
    requires
        rewired(a, b, ups),
    ensures
        node_at(a, path) is Some <==> node_at(b, path) is Some,
        node_at(a, path) is Some ==> rewired(
            node_at(a, path)->Some_0,
            node_at(b, path)->Some_0,
            ups,
        ),
    decreases path.len(),
{
    if path.len() > 0 && 0 <= path[0] < a.input@.len() {
        assert(rewired(a.input@[path[0]], b.input@[path[0]], ups));
        lemma_rewired_at(a.input@[path[0]], b.input@[path[0]], ups, path.skip(1));
    }
}

/// The upstream actors of a new actor are those that feed it in its upstream fragments, and an operator that
/// merges the rows of a fragment takes those that feed the actor there. The operators are otherwise those of the
/// template, each at its place.
pub proof fn lemma_new_upstreams(
    ctx: &RescheduleContext,
    to_remove: &BTreeMap<u32, BTreeMap<u32, u32>>,
    to_create: &BTreeMap<u32, BTreeMap<u32, u32>>,
    bits: &BTreeMap<u32, BTreeMap<u32, Bitmap>>,
    pairs: &Vec<NoShufflePair>,
    template: &StreamActor,
    new_actor_id: u32,
    res: StreamActor,
    x: u32,
    path: Seq<int>,
)
    requires
        call_ensures(
            modify_actor_upstream_and_downstream,
            (ctx, to_remove, to_create, bits, pairs, template, new_actor_id),
            res,
        ),
        upstreams_there(ctx, pairs@, template.fragment_id, new_actor_id),
    ensures
        ({
            let fragment = ctx.fragment_map@[template.fragment_id];
            let ups = fragment.upstream_fragment_ids@;
            &&& res.upstream_actor_id@.contains(x) ==> exists|i: int|
                0 <= i < ups.len() && feeds(
                    ctx,
                    to_remove@,
                    to_create@,
                    pairs@,
                    fragment.fragment_id,
                    new_actor_id,
                    #[trigger] ups[i],
                    x,
                )
            &&& (exists|i: int|
                0 <= i < ups.len() && ctx.fragment_dispatcher_map@[#[trigger] ups[i]]@[fragment.fragment_id]
                    != DispatcherType::NoShuffle && feeds(
                    ctx,
                    to_remove@,
                    to_create@,
                    pairs@,
                    fragment.fragment_id,
                    new_actor_id,
                    ups[i],
                    x,
                )) ==> res.upstream_actor_id@.contains(x)
            &&& template.nodes is Some <==> res.nodes is Some
            &&& template.nodes is Some ==> {
                let from = node_at(template.nodes->Some_0, path);
                let to = node_at(res.nodes->Some_0, path);
                &&& from is Some <==> to is Some
                &&& from is Some ==> from->Some_0.input@.len() == to->Some_0.input@.len()
                &&& from is Some ==> match (from->Some_0.node_body, to->Some_0.node_body) {
                    (
                        NodeBody::Merge { upstream_fragment_id: f, upstream_actor_id: _ },
                        NodeBody::Merge { upstream_fragment_id: g, upstream_actor_id: list },
                    ) => {
                        &&& g == f
                        &&& ups.contains(f) && list@.contains(x) ==> feeds(
                            ctx,
                            to_remove@,
                            to_create@,
                            pairs@,
                            fragment.fragment_id,
                            new_actor_id,
                            f,
                            x,
                        )
                        &&& ups.contains(f)
                            && ctx.fragment_dispatcher_map@[f]@[fragment.fragment_id]
                            != DispatcherType::NoShuffle && feeds(
                            ctx,
                            to_remove@,
                            to_create@,
                            pairs@,
                            fragment.fragment_id,
                            new_actor_id,
                            f,
                            x,
                        ) ==> list@.contains(x)
                    },
                    (
                        NodeBody::Source { has_inner_stream: a },
                        NodeBody::Source { has_inner_stream: b },
                    ) => a == b,
                    (NodeBody::Other, NodeBody::Other) => true,
                    _ => false,
                }
            }
        }),
{
    let fragment = ctx.fragment_map@[template.fragment_id];
    let ups = fragment.upstream_fragment_ids@;
    let f = fragment.fragment_id;
    let lists = applied_upstreams(
        ups,
        f,
        new_actor_id,
        ctx.fragment_map@,
        dispatcher_index(ctx.fragment_dispatcher_map@),
        nested(to_remove@),
        nested(to_create@),
        pairs@,
    );
    assert(lists.dom() =~= ups.to_set());
    assert(ups.to_set().finite()) by {
        vstd::seq_lib::seq_to_set_is_finite(ups);
    }
    lemma_ascending_exists(lists.dom());
    let ids = ascending_of(lists.dom());
    lemma_flatten(ids, lists, x);
    assert forall|i: int| 0 <= i < ups.len() implies {
        &&& lists.contains_key(#[trigger] ups[i])
        &&& lists[ups[i]].contains(x) ==> feeds(
            ctx,
            to_remove@,
            to_create@,
            pairs@,
            f,
            new_actor_id,
            ups[i],
            x,
        )
        &&& ctx.fragment_dispatcher_map@[ups[i]]@[f] != DispatcherType::NoShuffle && feeds(
            ctx,
            to_remove@,
            to_create@,
            pairs@,
            f,
            new_actor_id,
            ups[i],
            x,
        ) ==> lists[ups[i]].contains(x)
    } by {
        assert(ups.contains(ups[i]));
        assert(upstream_there(ctx, pairs@, f, new_actor_id, fragment.upstream_fragment_ids@[i]));
        lemma_feeds(ctx, to_remove@, to_create@, pairs@, f, new_actor_id, ups[i], x);
    }
    if res.upstream_actor_id@.contains(x) {
        let k = choose|k: int| 0 <= k < ids.len() && lists[#[trigger] ids[k]].contains(x);
        assert(ids.to_set().contains(ids[k]));
        assert(ups.to_set().contains(ids[k]));
        let i = ups.index_of(ids[k]);
        assert(ups[i] == ids[k]);
    }
    if exists|i: int|
        0 <= i < ups.len() && ctx.fragment_dispatcher_map@[#[trigger] ups[i]]@[f]
            != DispatcherType::NoShuffle && feeds(
            ctx,
            to_remove@,
            to_create@,
            pairs@,
            f,
            new_actor_id,
            ups[i],
            x,
        ) {
        let i = choose|i: int|
            0 <= i < ups.len() && ctx.fragment_dispatcher_map@[#[trigger] ups[i]]@[f]
                != DispatcherType::NoShuffle && feeds(
                ctx,
                to_remove@,
                to_create@,
                pairs@,
                f,
                new_actor_id,
                ups[i],
                x,
            );
        assert(lists[ups[i]].contains(x));
        assert(ups.to_set().contains(ups[i]));
        assert(ids.to_set().contains(ups[i]));
        let k = ids.index_of(ups[i]);
        assert(lists[ids[k]].contains(x));
    }
    if template.nodes is Some {
        lemma_rewired_at(template.nodes->Some_0, res.nodes->Some_0, lists, path);
        let from = node_at(template.nodes->Some_0, path);
        if from is Some {
            match from->Some_0.node_body {
                NodeBody::Merge { upstream_fragment_id, upstream_actor_id } => {
                    if ups.contains(upstream_fragment_id) {
                        let i = ups.index_of(upstream_fragment_id);
                        assert(ups[i] == upstream_fragment_id);
                    }
                },
                _ => {},
            }
        }
    }
}

} // verus!
