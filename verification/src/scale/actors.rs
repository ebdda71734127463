//! New actors: copies of a template that are wired to the actors around them.
use crate::common::bitmap::{Bitmap, VNODE_COUNT};
use crate::common::collections::{ascending_of, copy_ids, map_keys};
use crate::scale::arrange::{contains_inner, inner, nested};
use crate::scale::context::RescheduleContext;
use crate::scale::links::dispatcher_index;
use crate::scale::model::{ActorMapping, CustomActorInfo, CustomFragmentInfo, Dispatcher};
use crate::scale::model::{DispatcherType, NodeBody, StreamActor, StreamNode};
use crate::scale::rebalance::bitmaps;
use crate::scale::relation::{bits_of, downstream_actor, find_downstream_actor};
use crate::scale::relation::{find_upstream_actor, upstream_actor, NoShufflePair};
use std::collections::BTreeMap;
use vstd::prelude::*;

verus! {

broadcast use {
    vstd::std_specs::btree::group_btree_axioms,
    vstd::laws_cmp::group_laws_cmp,
};

/// The last of the given actors that owns the virtual node.
pub open spec fn owner_among(ids: Seq<u32>, bits: Map<u32, Seq<bool>>, k: int) -> Option<u32>
    decreases ids.len(),
{
    if ids.len() == 0 {
        None
    } else if bits[ids.last()][k] {
        Some(ids.last())
    } else {
        owner_among(ids.drop_last(), bits, k)
    }
}

/// The owner of a virtual node.
pub open spec fn owner_of(bits: Map<u32, Seq<bool>>, k: int) -> Option<u32> {
    owner_among(ascending_of(bits.dom()), bits, k)
}

/// The owners of all virtual nodes.
pub open spec fn owners_of(bits: Map<u32, Seq<bool>>) -> Seq<u32> {
    Seq::new(VNODE_COUNT as nat, |k: int| owner_of(bits, k)->Some_0)
}

/// Every virtual node has an owner.
pub open spec fn all_owned(bits: Map<u32, Seq<bool>>) -> bool {
    &&& forall|a: u32| #[trigger] bits.contains_key(a) ==> bits[a].len() == VNODE_COUNT
    &&& forall|k: int| 0 <= k < VNODE_COUNT ==> #[trigger] owner_of(bits, k) is Some
}

impl ActorMapping {
    /// All virtual nodes belong to one actor.
    pub fn new_single(actor_id: u32) -> (res: ActorMapping)
        ensures
            res@ == Seq::new(VNODE_COUNT as nat, |k: int| actor_id),
    {
        let mut owners: Vec<u32> = Vec::new();
        let mut k: usize = 0;
        while k < VNODE_COUNT
            invariant
                k <= VNODE_COUNT,
                owners@ == Seq::new(k as nat, |k: int| actor_id),
            decreases VNODE_COUNT - k,
        {
            owners.push(actor_id);
            k = k + 1;
            assert(owners@ =~= Seq::new(k as nat, |k: int| actor_id));
        }
        ActorMapping { owners }
    }

    /// The owners of all virtual nodes.
    pub fn from_bitmaps(bitmap_of: &BTreeMap<u32, Bitmap>) -> (res: ActorMapping)
        requires
            all_owned(bitmaps(bitmap_of@)),
        ensures
            res@ == owners_of(bitmaps(bitmap_of@)),
    {
        let ids = map_keys(bitmap_of);
        let ghost bits = bitmaps(bitmap_of@);
        assert(bits.dom() =~= bitmap_of@.dom());
        let mut owners: Vec<u32> = Vec::new();
        let mut k: usize = 0;
        while k < VNODE_COUNT
            invariant
                k <= VNODE_COUNT,
                bits == bitmaps(bitmap_of@),
                all_owned(bits),
                ids@ == ascending_of(bits.dom()),
                ids@.to_set() == bitmap_of@.dom(),
                owners@ == owners_of(bits).take(k as int),
            decreases VNODE_COUNT - k,
        {
            assert(owner_of(bits, k as int) is Some);
            let mut i: usize = ids.len();
            assert(ids@.take(i as int) =~= ids@);
            let mut owner: u32 = 0;
            let mut found: bool = false;
            while i > 0 && !found
                invariant
                    i <= ids.len(),
                    k < VNODE_COUNT,
                    bits == bitmaps(bitmap_of@),
                    all_owned(bits),
                    ids@.to_set() == bitmap_of@.dom(),
                    owner_of(bits, k as int) is Some,
                    !found ==> owner_of(bits, k as int) == owner_among(
                        ids@.take(i as int),
                        bits,
                        k as int,
                    ),
                    found ==> owner_of(bits, k as int) == Some(owner),
                decreases i,
            {
                let id: u32 = ids[i - 1];
                assert(ids@.to_set().contains(ids@[i - 1]));
                assert(bits.contains_key(id));
                assert(ids@.take(i as int).last() == id);
                assert(ids@.take(i as int).drop_last() =~= ids@.take(i - 1));
                if bitmap_of.get(&id).unwrap().is_set(k) {
                    owner = id;
                    found = true;
                }
                i = i - 1;
            }
            owners.push(owner);
            k = k + 1;
            assert(owners@ =~= owners_of(bits).take(k as int));
        }
        assert(owners@ =~= owners_of(bits));
        ActorMapping { owners }
    }
}

/// The lists behind a map of lists.
pub open spec fn lists_of(m: Map<u32, Vec<u32>>) -> Map<u32, Seq<u32>> {
    Map::new(|k: u32| m.contains_key(k), |k: u32| m[k]@)
}

/// The actors that stay.
pub open spec fn staying_actors(actors: Seq<CustomActorInfo>, removed: Map<u32, u32>) -> Seq<u32>
    decreases actors.len(),
{
    if actors.len() == 0 {
        Seq::empty()
    } else if removed.contains_key(actors.last().actor_id) {
        staying_actors(actors.drop_last(), removed)
    } else {
        staying_actors(actors.drop_last(), removed).push(actors.last().actor_id)
    }
}

/// The ids that stay.
pub open spec fn staying_ids(ids: Seq<u32>, removed: Map<u32, u32>) -> Seq<u32>
    decreases ids.len(),
{
    if ids.len() == 0 {
        Seq::empty()
    } else if removed.contains_key(ids.last()) {
        staying_ids(ids.drop_last(), removed)
    } else {
        staying_ids(ids.drop_last(), removed).push(ids.last())
    }
}

/// The upstream actors of a new actor in one upstream fragment.
pub open spec fn upstreams_in(
    up: u32,
    fragment_id: u32,
    new_actor_id: u32,
    fragments: Map<u32, &CustomFragmentInfo>,
    index: Map<u32, Map<u32, DispatcherType>>,
    to_remove: Map<u32, Map<u32, u32>>,
    to_create: Map<u32, Map<u32, u32>>,
    pairs: Seq<NoShufflePair>,
) -> Seq<u32> {
    if index[up][fragment_id] == DispatcherType::NoShuffle {
        seq![upstream_actor(pairs, new_actor_id, up)->Some_0]
    } else {
        staying_actors(fragments[up].actors@, inner(to_remove, up)) + ascending_of(
            inner(to_create, up).dom(),
        )
    }
}

/// The upstream actors of a new actor, by upstream fragment.
pub open spec fn applied_upstreams(
    ups: Seq<u32>,
    fragment_id: u32,
    new_actor_id: u32,
    fragments: Map<u32, &CustomFragmentInfo>,
    index: Map<u32, Map<u32, DispatcherType>>,
    to_remove: Map<u32, Map<u32, u32>>,
    to_create: Map<u32, Map<u32, u32>>,
    pairs: Seq<NoShufflePair>,
) -> Map<u32, Seq<u32>> {
    Map::new(
        |u: u32| ups.contains(u),
        |u: u32|
            upstreams_in(
                u,
                fragment_id,
                new_actor_id,
                fragments,
                index,
                to_remove,
                to_create,
                pairs,
            ),
    )
}

/// The lists under the given keys, one after the other.
pub open spec fn flatten(ids: Seq<u32>, m: Map<u32, Seq<u32>>) -> Seq<u32>
    decreases ids.len(),
{
    if ids.len() == 0 {
        Seq::empty()
    } else {
        flatten(ids.drop_last(), m) + m[ids.last()]
    }
}

/// Every fragment that an operator of the tree merges is known.
pub open spec fn merges_known(node: StreamNode, known: Set<u32>) -> bool
    decreases node,
{
    (node.node_body matches NodeBody::Merge { upstream_fragment_id, .. } ==> known.contains(
        upstream_fragment_id,
    )) && forall|i: int|
        0 <= i < node.input@.len() ==> merges_known(#[trigger] node.input@[i], known)
}

/// The trees are the same but for the upstream actors of operators that merge.
pub open spec fn rewired(old_node: StreamNode, new_node: StreamNode, ups: Map<u32, Seq<u32>>) -> bool
    decreases old_node,
{
    &&& match old_node.node_body {
        NodeBody::Merge { upstream_fragment_id, .. } => new_node.node_body matches NodeBody::Merge {
            upstream_fragment_id: f,
            upstream_actor_id,
        } && f == upstream_fragment_id && upstream_actor_id@ == ups[f],
        NodeBody::Source { has_inner_stream } => new_node.node_body == (NodeBody::Source {
            has_inner_stream,
        }),
        NodeBody::Other => new_node.node_body == NodeBody::Other,
    }
    &&& new_node.input@.len() == old_node.input@.len()
    &&& forall|i: int|
        0 <= i < old_node.input@.len() ==> rewired(
            #[trigger] old_node.input@[i],
            new_node.input@[i],
            ups,
        )
}

/// A copy of the tree with the upstream actors of operators that merge replaced.
pub fn replace_merge_node_upstream(node: &StreamNode, ups: &BTreeMap<u32, Vec<u32>>) -> (res: StreamNode)
    requires
        merges_known(*node, ups@.dom()),
    ensures
        rewired(*node, res, lists_of(ups@)),
    decreases node,
{
    let node_body = match &node.node_body {
        NodeBody::Merge { upstream_fragment_id, upstream_actor_id: _ } => NodeBody::Merge {
            upstream_fragment_id: *upstream_fragment_id,
            upstream_actor_id: copy_ids(ups.get(upstream_fragment_id).unwrap()),
        },
        NodeBody::Source { has_inner_stream } => NodeBody::Source {
            has_inner_stream: *has_inner_stream,
        },
        NodeBody::Other => NodeBody::Other,
    };
    let mut input: Vec<StreamNode> = Vec::new();
    let mut i: usize = 0;
    while i < node.input.len()
        invariant
            i <= node.input.len(),
            input@.len() == i,
            merges_known(*node, ups@.dom()),
            forall|j: int|
                0 <= j < i ==> rewired(#[trigger] node.input@[j], input@[j], lists_of(ups@)),
        decreases node.input.len() - i,
    {
        let child = &node.input[i];
        assert(merges_known(node.input@[i as int], ups@.dom()));
        let copied = replace_merge_node_upstream(child, ups);
        input.push(copied);
        i = i + 1;
    }
    StreamNode { node_body, input }
}

/// The fragment of the first of the given actors that is known.
pub open spec fn fragment_of_first(
    actors: Map<u32, &CustomActorInfo>,
    ids: Seq<u32>,
) -> Option<u32>
    decreases ids.len(),
{
    if ids.len() == 0 {
        None
    } else if actors.contains_key(ids[0]) {
        Some(actors[ids[0]].fragment_id)
    } else {
        fragment_of_first(actors, ids.skip(1))
    }
}

/// Some downstream actor of the dispatcher is known, and all that are known are in one fragment.
pub open spec fn one_downstream_fragment(actors: Map<u32, &CustomActorInfo>, ids: Seq<u32>) -> bool {
    &&& fragment_of_first(actors, ids) is Some
    &&& forall|i: int|
        0 <= i < ids.len() && actors.contains_key(#[trigger] ids[i]) ==> actors[ids[i]].fragment_id
            == fragment_of_first(actors, ids)->Some_0
}

/// The fragment of the first of the given actors that is known.
fn find_fragment_of_first(actors: &BTreeMap<u32, &CustomActorInfo>, ids: &Vec<u32>) -> (res: Option<
    u32,
>)
    ensures
        res == fragment_of_first(actors@, ids@),
{
    let mut i: usize = 0;
    assert(ids@.skip(0) =~= ids@);
    while i < ids.len()
        invariant
            i <= ids.len(),
            fragment_of_first(actors@, ids@) == fragment_of_first(actors@, ids@.skip(i as int)),
        decreases ids.len() - i,
    {
        assert(ids@.skip(i as int)[0] == ids@[i as int]);
        assert(ids@.skip(i as int).skip(1) =~= ids@.skip(i + 1));
        if let Some(actor) = actors.get(&ids[i]) {
            return Some(actor.fragment_id);
        }
        i = i + 1;
    }
    assert(ids@.skip(i as int) =~= Seq::<u32>::empty());
    None
}

/// The downstream actors of a dispatcher of a new actor.
pub open spec fn new_downstreams(
    d: Dispatcher,
    g: u32,
    new_actor_id: u32,
    to_remove: Map<u32, Map<u32, u32>>,
    to_create: Map<u32, Map<u32, u32>>,
    pairs: Seq<NoShufflePair>,
) -> Seq<u32> {
    if d.dispatcher_type == DispatcherType::NoShuffle {
        seq![downstream_actor(pairs, new_actor_id, g)->Some_0]
    } else {
        staying_ids(d.downstream_actor_id@, inner(to_remove, g)) + ascending_of(
            inner(to_create, g).dom(),
        )
    }
}

/// The dispatcher of a new actor, made from that of the template.
pub open spec fn is_new_dispatcher(
    d: Dispatcher,
    res: Dispatcher,
    new_actor_id: u32,
    actors: Map<u32, &CustomActorInfo>,
    to_remove: Map<u32, Map<u32, u32>>,
    to_create: Map<u32, Map<u32, u32>>,
    pairs: Seq<NoShufflePair>,
    bits: Map<u32, Map<u32, Seq<bool>>>,
) -> bool {
    let g = fragment_of_first(actors, d.downstream_actor_id@)->Some_0;
    &&& res.dispatcher_type == d.dispatcher_type
    &&& res.dispatcher_id == d.dispatcher_id
    &&& res.downstream_actor_id@ == new_downstreams(
        d,
        g,
        new_actor_id,
        to_remove,
        to_create,
        pairs,
    )
    &&& match d.hash_mapping {
        None => res.hash_mapping is None,
        Some(mapping) => res.hash_mapping matches Some(new_mapping) && new_mapping@ == (
        if bits.contains_key(g) {
            // The downstream fragment is rescheduled too.
            owners_of(bits[g])
        } else {
            mapping@
        }),
    }
}

/// The dispatcher of the template can be made into that of the new actor.
pub open spec fn dispatcher_ready(
    d: Dispatcher,
    new_actor_id: u32,
    actors: Map<u32, &CustomActorInfo>,
    to_remove: Map<u32, Map<u32, u32>>,
    to_create: Map<u32, Map<u32, u32>>,
    pairs: Seq<NoShufflePair>,
    bits: Map<u32, Map<u32, Seq<bool>>>,
) -> bool {
    let g = fragment_of_first(actors, d.downstream_actor_id@)->Some_0;
    &&& d.dispatcher_type != DispatcherType::Unspecified
    &&& one_downstream_fragment(actors, d.downstream_actor_id@)
    &&& d.dispatcher_type == DispatcherType::NoShuffle ==> d.downstream_actor_id@.len() == 1
        && downstream_actor(pairs, new_actor_id, g) is Some
    &&& d.dispatcher_type == DispatcherType::Simple ==> new_downstreams(
        d,
        g,
        new_actor_id,
        to_remove,
        to_create,
        pairs,
    ).len() == 1
    &&& d.hash_mapping is Some && bits.contains_key(g) ==> all_owned(bits[g])
}

/// Appends the ids in the inner map under a key, in ascending order.
fn push_inner_keys(res: &mut Vec<u32>, m: &BTreeMap<u32, BTreeMap<u32, u32>>, k: u32)
    ensures
        final(res)@ == old(res)@ + ascending_of(inner(nested(m@), k).dom()),
{
    match m.get(&k) {
        Some(i) => {
            let mut ids = map_keys(i);
            res.append(&mut ids);
        },
        None => {
            proof {
                let none = Seq::<u32>::empty();
                assert(none.to_set() =~= Map::<u32, u32>::empty().dom());
                crate::common::collections::lemma_ascending_of(none);
                assert(res@ =~= res@ + none);
            }
        },
    }
}

/// Makes the dispatcher of a new actor from that of the template.
fn new_dispatcher(
    d: &Dispatcher,
    new_actor_id: u32,
    ctx: &RescheduleContext,
    to_remove: &BTreeMap<u32, BTreeMap<u32, u32>>,
    to_create: &BTreeMap<u32, BTreeMap<u32, u32>>,
    pairs: &Vec<NoShufflePair>,
    fragment_actor_bitmap: &BTreeMap<u32, BTreeMap<u32, Bitmap>>,
) -> (res: Dispatcher)
    requires
        dispatcher_ready(
            *d,
            new_actor_id,
            ctx.actor_map@,
            nested(to_remove@),
            nested(to_create@),
            pairs@,
            bits_of(fragment_actor_bitmap@),
        ),
    ensures
        is_new_dispatcher(
            *d,
            res,
            new_actor_id,
            ctx.actor_map@,
            nested(to_remove@),
            nested(to_create@),
            pairs@,
            bits_of(fragment_actor_bitmap@),
        ),
{
    let g: u32 = find_fragment_of_first(&ctx.actor_map, &d.downstream_actor_id).unwrap();
    let mut downstream_actor_id: Vec<u32> = Vec::new();
    if d.dispatcher_type == DispatcherType::NoShuffle {
        downstream_actor_id.push(find_downstream_actor(pairs, new_actor_id, g).unwrap());
        assert(downstream_actor_id@ =~= new_downstreams(
            *d,
            g,
            new_actor_id,
            nested(to_remove@),
            nested(to_create@),
            pairs@,
        ));
    } else {
        let ids = &d.downstream_actor_id;
        let ghost removed = inner(nested(to_remove@), g);
        let mut i: usize = 0;
        assert(ids@.take(0) =~= Seq::<u32>::empty());
        while i < ids.len()
            invariant
                i <= ids.len(),
                removed == inner(nested(to_remove@), g),
                downstream_actor_id@ == staying_ids(ids@.take(i as int), removed),
            decreases ids.len() - i,
        {
            assert(ids@.take(i + 1).drop_last() =~= ids@.take(i as int));
            if !contains_inner(to_remove, g, ids[i]) {
                downstream_actor_id.push(ids[i]);
            }
            i = i + 1;
        }
        assert(ids@.take(i as int) =~= ids@);
        push_inner_keys(&mut downstream_actor_id, to_create, g);
    }
    let hash_mapping = match &d.hash_mapping {
        None => None,
        Some(mapping) => match fragment_actor_bitmap.get(&g) {
            Some(bitmap_of) => Some(ActorMapping::from_bitmaps(bitmap_of)),
            None => Some(ActorMapping { owners: copy_ids(&mapping.owners) }),
        },
    };
    Dispatcher {
        dispatcher_type: d.dispatcher_type,
        dispatcher_id: d.dispatcher_id,
        hash_mapping,
        downstream_actor_id,
    }
}

/// The upstreams of the new actor are known.
pub open spec fn upstreams_ready(
    ups: Seq<u32>,
    fragment_id: u32,
    new_actor_id: u32,
    fragments: Map<u32, &CustomFragmentInfo>,
    index: Map<u32, Map<u32, DispatcherType>>,
    pairs: Seq<NoShufflePair>,
) -> bool {
    forall|i: int|
        0 <= i < ups.len() ==> upstream_ready(
            #[trigger] ups[i],
            fragment_id,
            new_actor_id,
            fragments,
            index,
            pairs,
        )
}

pub open spec fn upstream_ready(
    up: u32,
    fragment_id: u32,
    new_actor_id: u32,
    fragments: Map<u32, &CustomFragmentInfo>,
    index: Map<u32, Map<u32, DispatcherType>>,
    pairs: Seq<NoShufflePair>,
) -> bool {
    &&& index.contains_key(up) && index[up].contains_key(fragment_id)
    &&& index[up][fragment_id] != DispatcherType::Unspecified
    &&& if index[up][fragment_id] == DispatcherType::NoShuffle {
        upstream_actor(pairs, new_actor_id, up) is Some
    } else {
        fragments.contains_key(up)
    }
}

/// The upstream actors of a new actor, by upstream fragment.
fn collect_upstreams(
    fragment: &CustomFragmentInfo,
    new_actor_id: u32,
    ctx: &RescheduleContext,
    to_remove: &BTreeMap<u32, BTreeMap<u32, u32>>,
    to_create: &BTreeMap<u32, BTreeMap<u32, u32>>,
    pairs: &Vec<NoShufflePair>,
) -> (res: BTreeMap<u32, Vec<u32>>)
    requires
        upstreams_ready(
            fragment.upstream_fragment_ids@,
            fragment.fragment_id,
            new_actor_id,
            ctx.fragment_map@,
            dispatcher_index(ctx.fragment_dispatcher_map@),
            pairs@,
        ),
    ensures
        lists_of(res@) == applied_upstreams(
            fragment.upstream_fragment_ids@,
            fragment.fragment_id,
            new_actor_id,
            ctx.fragment_map@,
            dispatcher_index(ctx.fragment_dispatcher_map@),
            nested(to_remove@),
            nested(to_create@),
            pairs@,
        ),
{
    let ups = &fragment.upstream_fragment_ids;
    let ghost index = dispatcher_index(ctx.fragment_dispatcher_map@);
    let ghost all = applied_upstreams(
        ups@,
        fragment.fragment_id,
        new_actor_id,
        ctx.fragment_map@,
        index,
        nested(to_remove@),
        nested(to_create@),
        pairs@,
    );
    let mut res: BTreeMap<u32, Vec<u32>> = BTreeMap::new();
    let mut i: usize = 0;
    assert(lists_of(res@) =~= all.restrict(ups@.take(0).to_set()));
    while i < ups.len()
        invariant
            i <= ups.len(),
            ups == fragment.upstream_fragment_ids,
            index == dispatcher_index(ctx.fragment_dispatcher_map@),
            upstreams_ready(
                ups@,
                fragment.fragment_id,
                new_actor_id,
                ctx.fragment_map@,
                index,
                pairs@,
            ),
            all == applied_upstreams(
                ups@,
                fragment.fragment_id,
                new_actor_id,
                ctx.fragment_map@,
                index,
                nested(to_remove@),
                nested(to_create@),
                pairs@,
            ),
            lists_of(res@) == all.restrict(ups@.take(i as int).to_set()),
        decreases ups.len() - i,
    {
        let up: u32 = ups[i];
        assert(ups@.contains(ups@[i as int]));
        assert(upstream_ready(
            ups@[i as int],
            fragment.fragment_id,
            new_actor_id,
            ctx.fragment_map@,
            index,
            pairs@,
        ));
        let downs = ctx.fragment_dispatcher_map.get(&up).unwrap();
        let ty: DispatcherType = *downs.get(&fragment.fragment_id).unwrap();
        let mut list: Vec<u32> = Vec::new();
        if ty == DispatcherType::NoShuffle {
            list.push(find_upstream_actor(pairs, new_actor_id, up).unwrap());
            assert(list@ =~= all[up]);
        } else {
            let upstream: &CustomFragmentInfo = *ctx.fragment_map.get(&up).unwrap();
            let actors = &upstream.actors;
            let ghost removed = inner(nested(to_remove@), up);
            let mut j: usize = 0;
            assert(actors@.take(0) =~= Seq::<CustomActorInfo>::empty());
            while j < actors.len()
                invariant
                    j <= actors.len(),
                    removed == inner(nested(to_remove@), up),
                    list@ == staying_actors(actors@.take(j as int), removed),
                decreases actors.len() - j,
            {
                assert(actors@.take(j + 1).drop_last() =~= actors@.take(j as int));
                if !contains_inner(to_remove, up, actors[j].actor_id) {
                    list.push(actors[j].actor_id);
                }
                j = j + 1;
            }
            assert(actors@.take(j as int) =~= actors@);
            push_inner_keys(&mut list, to_create, up);
        }
        assert(list@ == all[up]);
        let ghost res0 = res@;
        res.insert(up, list);
        proof {
            assert(lists_of(res@) =~= lists_of(res0).insert(up, all[up]));
            assert(ups@.take(i + 1) =~= ups@.take(i as int).push(up));
            crate::common::collections::lemma_to_set_push(ups@.take(i as int), up);
            assert(lists_of(res@) =~= all.restrict(ups@.take(i + 1).to_set()));
        }
        i = i + 1;
    }
    proof {
        assert(ups@.take(i as int) =~= ups@);
        assert forall|u: u32| all.contains_key(u) implies ups@.to_set().contains(u) by {}
        assert(lists_of(res@) =~= all);
    }
    res
}

/// The lists of a map, one after the other by ascending key.
fn flatten_lists(m: &BTreeMap<u32, Vec<u32>>) -> (res: Vec<u32>)
    ensures
        res@ == flatten(ascending_of(m@.dom()), lists_of(m@)),
{
    let ids = map_keys(m);
    let ghost lists = lists_of(m@);
    let mut res: Vec<u32> = Vec::new();
    let mut i: usize = 0;
    assert(ids@.take(0) =~= Seq::<u32>::empty());
    while i < ids.len()
        invariant
            i <= ids.len(),
            lists == lists_of(m@),
            ids@.to_set() == m@.dom(),
            res@ == flatten(ids@.take(i as int), lists),
        decreases ids.len() - i,
    {
        assert(ids@.to_set().contains(ids@[i as int]));
        let mut list = copy_ids(m.get(&ids[i]).unwrap());
        assert(ids@.take(i + 1).drop_last() =~= ids@.take(i as int));
        res.append(&mut list);
        i = i + 1;
    }
    assert(ids@.take(i as int) =~= ids@);
    res
}

/// The template of a new actor can be wired.
pub open spec fn template_ready(
    ctx: &RescheduleContext,
    to_remove: Map<u32, Map<u32, u32>>,
    to_create: Map<u32, Map<u32, u32>>,
    bits: Map<u32, Map<u32, Seq<bool>>>,
    pairs: Seq<NoShufflePair>,
    template: StreamActor,
    new_actor_id: u32,
) -> bool {
    let fragment = ctx.fragment_map@[template.fragment_id];
    &&& ctx.fragment_map@.contains_key(template.fragment_id)
    &&& upstreams_ready(
        fragment.upstream_fragment_ids@,
        fragment.fragment_id,
        new_actor_id,
        ctx.fragment_map@,
        dispatcher_index(ctx.fragment_dispatcher_map@),
        pairs,
    )
    &&& template.nodes matches Some(node) ==> merges_known(
        node,
        fragment.upstream_fragment_ids@.to_set(),
    )
    &&& forall|i: int|
        0 <= i < template.dispatcher@.len() ==> dispatcher_ready(
            #[trigger] template.dispatcher@[i],
            new_actor_id,
            ctx.actor_map@,
            to_remove,
            to_create,
            pairs,
            bits,
        )
}

/// The new actor: the template with its own id, wired to the actors that are upstream and
/// downstream of it after the reschedule.
pub open spec fn is_wired_actor(
    ctx: &RescheduleContext,
    to_remove: Map<u32, Map<u32, u32>>,
    to_create: Map<u32, Map<u32, u32>>,
    bits: Map<u32, Map<u32, Seq<bool>>>,
    pairs: Seq<NoShufflePair>,
    template: StreamActor,
    new_actor_id: u32,
    res: StreamActor,
) -> bool {
    let fragment = ctx.fragment_map@[template.fragment_id];
    let ups = applied_upstreams(
        fragment.upstream_fragment_ids@,
        fragment.fragment_id,
        new_actor_id,
        ctx.fragment_map@,
        dispatcher_index(ctx.fragment_dispatcher_map@),
        to_remove,
        to_create,
        pairs,
    );
    &&& res.actor_id == new_actor_id
    &&& res.fragment_id == template.fragment_id
    &&& res.upstream_actor_id@ == flatten(ascending_of(ups.dom()), ups)
    &&& match template.nodes {
        None => res.nodes is None,
        Some(node) => res.nodes matches Some(new_node) && rewired(node, new_node, ups),
    }
    &&& res.dispatcher@.len() == template.dispatcher@.len()
    &&& forall|i: int|
        0 <= i < template.dispatcher@.len() ==> is_new_dispatcher(
            #[trigger] template.dispatcher@[i],
            res.dispatcher@[i],
            new_actor_id,
            ctx.actor_map@,
            to_remove,
            to_create,
            pairs,
            bits,
        )
}

/// Makes a new actor from the template of its fragment: it gets its own id, and the actors that
/// are upstream and downstream of it after the reschedule.
pub fn modify_actor_upstream_and_downstream(
    ctx: &RescheduleContext,
    fragment_actors_to_remove: &BTreeMap<u32, BTreeMap<u32, u32>>,
    fragment_actors_to_create: &BTreeMap<u32, BTreeMap<u32, u32>>,
    fragment_actor_bitmap: &BTreeMap<u32, BTreeMap<u32, Bitmap>>,
    pairs: &Vec<NoShufflePair>,
    template: &StreamActor,
    new_actor_id: u32,
) -> (res: StreamActor)
    requires
        template_ready(
            ctx,
            nested(fragment_actors_to_remove@),
            nested(fragment_actors_to_create@),
            bits_of(fragment_actor_bitmap@),
            pairs@,
            *template,
            new_actor_id,
        ),
    ensures
        is_wired_actor(
            ctx,
            nested(fragment_actors_to_remove@),
            nested(fragment_actors_to_create@),
            bits_of(fragment_actor_bitmap@),
            pairs@,
            *template,
            new_actor_id,
            res,
        ),
        match template.vnode_bitmap {
            Some(bitmap) => res.vnode_bitmap matches Some(b) && b@ == bitmap@,
            None => res.vnode_bitmap is None,
        },
{
    let fragment: &CustomFragmentInfo = *ctx.fragment_map.get(&template.fragment_id).unwrap();
    let applied = collect_upstreams(
        fragment,
        new_actor_id,
        ctx,
        fragment_actors_to_remove,
        fragment_actors_to_create,
        pairs,
    );
    assert(applied@.dom() =~= lists_of(applied@).dom());
    assert(applied@.dom() =~= fragment.upstream_fragment_ids@.to_set());
    let upstream_actor_id = flatten_lists(&applied);
    let nodes = match &template.nodes {
        Some(node) => Some(replace_merge_node_upstream(node, &applied)),
        None => None,
    };
    let mut dispatcher: Vec<Dispatcher> = Vec::new();
    let ghost removed = nested(fragment_actors_to_remove@);
    let ghost created = nested(fragment_actors_to_create@);
    let ghost bits = bits_of(fragment_actor_bitmap@);
    let mut i: usize = 0;
    while i < template.dispatcher.len()
        invariant
            i <= template.dispatcher.len(),
            dispatcher@.len() == i,
            removed == nested(fragment_actors_to_remove@),
            created == nested(fragment_actors_to_create@),
            bits == bits_of(fragment_actor_bitmap@),
            forall|i: int|
                0 <= i < template.dispatcher@.len() ==> dispatcher_ready(
                    #[trigger] template.dispatcher@[i],
                    new_actor_id,
                    ctx.actor_map@,
                    removed,
                    created,
                    pairs@,
                    bits,
                ),
            forall|j: int|
                0 <= j < i ==> is_new_dispatcher(
                    #[trigger] template.dispatcher@[j],
                    dispatcher@[j],
                    new_actor_id,
                    ctx.actor_map@,
                    removed,
                    created,
                    pairs@,
                    bits,
                ),
        decreases template.dispatcher.len() - i,
    {
        assert(dispatcher_ready(
            template.dispatcher@[i as int],
            new_actor_id,
            ctx.actor_map@,
            removed,
            created,
            pairs@,
            bits,
        ));
        let d = new_dispatcher(
            &template.dispatcher[i],
            new_actor_id,
            ctx,
            fragment_actors_to_remove,
            fragment_actors_to_create,
            pairs,
            fragment_actor_bitmap,
        );
        dispatcher.push(d);
        i = i + 1;
    }
    let vnode_bitmap = match &template.vnode_bitmap {
        Some(bitmap) => Some(bitmap.clone()),
        None => None,
    };
    StreamActor {
        actor_id: new_actor_id,
        fragment_id: template.fragment_id,
        nodes,
        dispatcher,
        upstream_actor_id,
        vnode_bitmap,
    }
}

} // verus!
