//! The virtual nodes of actors after a reschedule, and the one-to-one relations between the actors
//! of fragments that are joined by `NoShuffle` edges.
use crate::common::bitmap::Bitmap;
use crate::common::collections::{ascending_of, key_set, lemma_to_set_push, map_keys, set_to_vec};
use crate::scale::arrange::{inner, nested};
use crate::scale::context::{collect_followers, followers, RescheduleContext};
use crate::scale::links::dispatcher_index;
use crate::scale::model::{CustomFragmentInfo, DispatcherType, FragmentDistributionType};
use crate::scale::model::ParallelUnitReschedule;
use crate::scale::rebalance::{balance_queue, bitmaps, can_rebalance, rebalance_actor_vnode};
use crate::scale::settle::settle;
use std::collections::BTreeMap;
use std::collections::BTreeSet;
use vstd::prelude::*;

verus! {

broadcast use {
    vstd::std_specs::btree::group_btree_axioms,
    vstd::laws_cmp::group_laws_cmp,
};

/// The bits behind a map of maps of bitmaps.
pub open spec fn bits_of(m: Map<u32, BTreeMap<u32, Bitmap>>) -> Map<u32, Map<u32, Seq<bool>>> {
    Map::new(|k: u32| m.contains_key(k), |k: u32| bitmaps(m[k]@))
}

/// The virtual nodes of the actors of one fragment after its own reschedule.
pub open spec fn own_bits(
    fragment: &CustomFragmentInfo,
    removed: Map<u32, u32>,
    created: Map<u32, u32>,
) -> Map<u32, Seq<bool>> {
    if fragment.distribution_type == FragmentDistributionType::Hash {
        settle(balance_queue(fragment.actors@, removed.dom(), created.dom()), removed.dom())
    } else {
        Map::empty()
    }
}

/// The virtual nodes of the actors of all rescheduled fragments that follow no other.
pub open spec fn root_bits(
    reschedule: Set<u32>,
    fragments: Map<u32, &CustomFragmentInfo>,
    targets: Set<u32>,
    to_remove: Map<u32, Map<u32, u32>>,
    to_create: Map<u32, Map<u32, u32>>,
) -> Map<u32, Map<u32, Seq<bool>>> {
    Map::new(
        |f: u32| reschedule.contains(f) && !targets.contains(f),
        |f: u32| own_bits(fragments[f], inner(to_remove, f), inner(to_create, f)),
    )
}

/// The hash-distributed fragments among the roots can be rebalanced.
pub open spec fn roots_rebalance(
    reschedule: Set<u32>,
    fragments: Map<u32, &CustomFragmentInfo>,
    targets: Set<u32>,
    to_remove: Map<u32, Map<u32, u32>>,
    to_create: Map<u32, Map<u32, u32>>,
) -> bool {
    forall|f: u32| #[trigger]
        reschedule.contains(f) && !targets.contains(f) ==> fragments.contains_key(f) && (
        fragments[f].distribution_type == FragmentDistributionType::Hash ==> can_rebalance(
            fragments[f].actors@,
            inner(to_remove, f).dom(),
            inner(to_create, f).dom(),
        ) && fragments[f].actors@.len() + inner(to_create, f).dom().len() <= usize::MAX)
}

/// The keys of the inner map under a key.
fn inner_keys(m: &BTreeMap<u32, BTreeMap<u32, u32>>, k: u32) -> (res: BTreeSet<u32>)
    ensures
        res@ == inner(nested(m@), k).dom(),
{
    match m.get(&k) {
        Some(i) => key_set(i),
        None => {
            let res: BTreeSet<u32> = BTreeSet::new();
            assert(res@ =~= Map::<u32, u32>::empty().dom());
            res
        },
    }
}

/// Rebalances the virtual nodes of all rescheduled fragments that follow no other.
pub fn rebalance_roots(
    reschedule: &BTreeMap<u32, ParallelUnitReschedule>,
    ctx: &RescheduleContext,
    to_remove: &BTreeMap<u32, BTreeMap<u32, u32>>,
    to_create: &BTreeMap<u32, BTreeMap<u32, u32>>,
) -> (res: BTreeMap<u32, BTreeMap<u32, Bitmap>>)
    requires
        roots_rebalance(
            reschedule@.dom(),
            ctx.fragment_map@,
            ctx.no_shuffle_target_fragment_ids@,
            nested(to_remove@),
            nested(to_create@),
        ),
    ensures
        bits_of(res@) == root_bits(
            reschedule@.dom(),
            ctx.fragment_map@,
            ctx.no_shuffle_target_fragment_ids@,
            nested(to_remove@),
            nested(to_create@),
        ),
{
    let ids = map_keys(reschedule);
    let ghost frags = ctx.fragment_map@;
    let ghost targets = ctx.no_shuffle_target_fragment_ids@;
    let ghost all = root_bits(
        reschedule@.dom(),
        frags,
        targets,
        nested(to_remove@),
        nested(to_create@),
    );
    let mut res: BTreeMap<u32, BTreeMap<u32, Bitmap>> = BTreeMap::new();
    let mut i: usize = 0;
    assert(bits_of(res@) =~= all.restrict(ids@.take(0).to_set()));
    while i < ids.len()
        invariant
            i <= ids.len(),
            ids@.to_set() == reschedule@.dom(),
            frags == ctx.fragment_map@,
            targets == ctx.no_shuffle_target_fragment_ids@,
            roots_rebalance(
                reschedule@.dom(),
                frags,
                targets,
                nested(to_remove@),
                nested(to_create@),
            ),
            all == root_bits(
                reschedule@.dom(),
                frags,
                targets,
                nested(to_remove@),
                nested(to_create@),
            ),
            bits_of(res@) == all.restrict(ids@.take(i as int).to_set()),
        decreases ids.len() - i,
    {
        let f: u32 = ids[i];
        assert(ids@.to_set().contains(ids@[i as int]));
        assert(reschedule@.dom().contains(f));
        let ghost res0 = res@;
        if !ctx.no_shuffle_target_fragment_ids.contains(&f) {
            let fragment: &CustomFragmentInfo = *ctx.fragment_map.get(&f).unwrap();
            let actor_vnode: BTreeMap<u32, Bitmap> = if fragment.distribution_type()
                == FragmentDistributionType::Hash {
                let removed = inner_keys(to_remove, f);
                let created = inner_keys(to_create, f);
                rebalance_actor_vnode(&fragment.actors, &removed, &created)
            } else {
                // A fragment with one actor has no virtual nodes to move.
                let none: BTreeMap<u32, Bitmap> = BTreeMap::new();
                assert(bitmaps(none@) =~= Map::<u32, Seq<bool>>::empty());
                none
            };
            let ghost bits = bitmaps(actor_vnode@);
            assert(bits == all[f]);
            res.insert(f, actor_vnode);
            assert(bits_of(res@) =~= bits_of(res0).insert(f, bits));
        }
        proof {
            assert(ids@.take(i + 1) =~= ids@.take(i as int).push(f));
            lemma_to_set_push(ids@.take(i as int), f);
            assert(bits_of(res@) =~= all.restrict(ids@.take(i + 1).to_set()));
        }
        i = i + 1;
    }
    assert(ids@.take(i as int) =~= ids@);
    assert(bits_of(res@) =~= all);
    res
}

/// The last of the given actors that is on the parallel unit.
pub open spec fn actor_on(ids: Seq<u32>, places: Map<u32, u32>, unit: u32) -> Option<u32>
    decreases ids.len(),
{
    if ids.len() == 0 {
        None
    } else if places[ids.last()] == unit {
        Some(ids.last())
    } else {
        actor_on(ids.drop_last(), places, unit)
    }
}

/// The actor of a fragment on a parallel unit.
pub open spec fn actor_at(places: Map<u32, u32>, unit: u32) -> Option<u32> {
    actor_on(ascending_of(places.dom()), places, unit)
}

/// The actor of a fragment on a parallel unit.
fn find_actor_at(ids: &Vec<u32>, places: &BTreeMap<u32, u32>, unit: u32) -> (res: Option<u32>)
    requires
        ids@ == ascending_of(places@.dom()),
        ids@.to_set() == places@.dom(),
    ensures
        res == actor_at(places@, unit),
{
    let mut i: usize = ids.len();
    assert(ids@.take(i as int) =~= ids@);
    while i > 0
        invariant
            i <= ids.len(),
            ids@ == ascending_of(places@.dom()),
            ids@.to_set() == places@.dom(),
            actor_at(places@, unit) == actor_on(ids@.take(i as int), places@, unit),
        decreases i,
    {
        assert(ids@.to_set().contains(ids@[i - 1]));
        assert(ids@.take(i as int).last() == ids@[i - 1]);
        assert(ids@.take(i as int).drop_last() =~= ids@.take(i - 1));
        if *places.get(&ids[i - 1]).unwrap() == unit {
            return Some(ids[i - 1]);
        }
        i = i - 1;
    }
    None
}

/// The virtual nodes of the actors of a follower: those of the actor of the root that is on the
/// same parallel unit.
pub open spec fn follower_bits(
    ids: Seq<u32>,
    root_places: Map<u32, u32>,
    places: Map<u32, u32>,
    bits: Map<u32, Seq<bool>>,
) -> Map<u32, Seq<bool>>
    decreases ids.len(),
{
    if ids.len() == 0 {
        Map::empty()
    } else {
        let m = follower_bits(ids.drop_last(), root_places, places, bits);
        let a = ids.last();
        if bits.contains_key(a) {
            m.insert(actor_at(places, root_places[a])->Some_0, bits[a])
        } else {
            m
        }
    }
}

/// Every parallel unit of one fragment has an actor of the other.
pub open spec fn aligned(root_places: Map<u32, u32>, places: Map<u32, u32>) -> bool {
    forall|a: u32| #[trigger]
        root_places.contains_key(a) ==> actor_at(places, root_places[a]) is Some
}

/// The virtual nodes of the actors of a follower.
fn copy_follower_bits(
    root_places: &BTreeMap<u32, u32>,
    places: &BTreeMap<u32, u32>,
    root_bitmaps: &BTreeMap<u32, Bitmap>,
) -> (res: BTreeMap<u32, Bitmap>)
    requires
        aligned(root_places@, places@),
    ensures
        bitmaps(res@) == follower_bits(
            ascending_of(root_places@.dom()),
            root_places@,
            places@,
            bitmaps(root_bitmaps@),
        ),
{
    let ids = map_keys(root_places);
    let own = map_keys(places);
    let ghost bits = bitmaps(root_bitmaps@);
    let mut res: BTreeMap<u32, Bitmap> = BTreeMap::new();
    let mut i: usize = 0;
    assert(ids@.take(0) =~= Seq::<u32>::empty());
    assert(bitmaps(res@) =~= Map::<u32, Seq<bool>>::empty());
    while i < ids.len()
        invariant
            i <= ids.len(),
            ids@.to_set() == root_places@.dom(),
            own@ == ascending_of(places@.dom()),
            own@.to_set() == places@.dom(),
            aligned(root_places@, places@),
            bits == bitmaps(root_bitmaps@),
            bitmaps(res@) == follower_bits(ids@.take(i as int), root_places@, places@, bits),
        decreases ids.len() - i,
    {
        let a: u32 = ids[i];
        assert(ids@.to_set().contains(ids@[i as int]));
        assert(root_places@.contains_key(a));
        assert(ids@.take(i + 1).drop_last() =~= ids@.take(i as int));
        let unit: u32 = *root_places.get(&a).unwrap();
        let ghost res0 = res@;
        if let Some(bitmap) = root_bitmaps.get(&a) {
            let actor_id: u32 = find_actor_at(&own, places, unit).unwrap();
            let copied = bitmap.clone();
            res.insert(actor_id, copied);
            assert(bitmaps(res@) =~= bitmaps(res0).insert(actor_id, bits[a]));
        }
        i = i + 1;
    }
    assert(ids@.take(i as int) =~= ids@);
    res
}

/// The virtual nodes with those of the given followers of a root entered, where they are not known
/// yet.
pub open spec fn add_followers(
    bits: Map<u32, Map<u32, Seq<bool>>>,
    root: u32,
    fs: Seq<u32>,
    places: Map<u32, Map<u32, u32>>,
) -> Map<u32, Map<u32, Seq<bool>>>
    decreases fs.len(),
{
    if fs.len() == 0 {
        bits
    } else {
        let m = add_followers(bits, root, fs.drop_last(), places);
        let f = fs.last();
        if m.contains_key(f) {
            m
        } else {
            m.insert(
                f,
                follower_bits(
                    ascending_of(places[root].dom()),
                    places[root],
                    places[f],
                    inner_bits(m, root),
                ),
            )
        }
    }
}

/// The virtual nodes of a fragment; none where nothing is known of it.
pub open spec fn inner_bits(m: Map<u32, Map<u32, Seq<bool>>>, f: u32) -> Map<u32, Seq<bool>> {
    if m.contains_key(f) {
        m[f]
    } else {
        Map::empty()
    }
}

/// A fragment whose reschedule others follow.
pub open spec fn is_root(sources: Set<u32>, targets: Set<u32>, f: u32) -> bool {
    sources.contains(f) && !targets.contains(f)
}

/// The virtual nodes of the given fragments and of those that follow them.
pub open spec fn all_bits(
    ids: Seq<u32>,
    bits: Map<u32, Map<u32, Seq<bool>>>,
    index: Map<u32, Map<u32, DispatcherType>>,
    sources: Set<u32>,
    targets: Set<u32>,
    places: Map<u32, Map<u32, u32>>,
) -> Map<u32, Map<u32, Seq<bool>>>
    decreases ids.len(),
{
    if ids.len() == 0 {
        bits
    } else {
        let m = all_bits(ids.drop_last(), bits, index, sources, targets, places);
        if is_root(sources, targets, ids.last()) {
            add_followers(
                m,
                ids.last(),
                ascending_of(followers(index, targets, ids.last())),
                places,
            )
        } else {
            m
        }
    }
}

/// Every follower of a rescheduled root is placed where the root is.
pub open spec fn followers_aligned(
    reschedule: Set<u32>,
    index: Map<u32, Map<u32, DispatcherType>>,
    sources: Set<u32>,
    targets: Set<u32>,
    places: Map<u32, Map<u32, u32>>,
) -> bool {
    forall|r: u32, f: u32|
        reschedule.contains(r) && is_root(sources, targets, r) && #[trigger] followers(
            index,
            targets,
            r,
        ).contains(f) ==> places.contains_key(r) && places.contains_key(f) && aligned(
            places[r],
            places[f],
        )
}

/// What a follower gets from one root agrees with what it gets from any other.
pub open spec fn copies_agree(
    reschedule: Set<u32>,
    index: Map<u32, Map<u32, DispatcherType>>,
    sources: Set<u32>,
    targets: Set<u32>,
    places: Map<u32, Map<u32, u32>>,
    bits: Map<u32, Map<u32, Seq<bool>>>,
) -> bool {
    forall|r: u32, f: u32|
        reschedule.contains(r) && is_root(sources, targets, r) && #[trigger] followers(
            index,
            targets,
            r,
        ).contains(f) ==> inner_bits(bits, f) == follower_bits(
            ascending_of(places[r].dom()),
            places[r],
            places[f],
            inner_bits(bits, r),
        )
}

/// Gives the actors of all followers the virtual nodes of the actors that they follow.
pub fn copy_to_followers(
    reschedule: &BTreeMap<u32, ParallelUnitReschedule>,
    ctx: &RescheduleContext,
    places: &BTreeMap<u32, BTreeMap<u32, u32>>,
    fragment_actor_bitmap: &mut BTreeMap<u32, BTreeMap<u32, Bitmap>>,
)
    requires
        followers_aligned(
            reschedule@.dom(),
            dispatcher_index(ctx.fragment_dispatcher_map@),
            ctx.no_shuffle_source_fragment_ids@,
            ctx.no_shuffle_target_fragment_ids@,
            nested(places@),
        ),
    ensures
        bits_of(final(fragment_actor_bitmap)@) == all_bits(
            ascending_of(reschedule@.dom()),
            bits_of(old(fragment_actor_bitmap)@),
            dispatcher_index(ctx.fragment_dispatcher_map@),
            ctx.no_shuffle_source_fragment_ids@,
            ctx.no_shuffle_target_fragment_ids@,
            nested(places@),
        ),
{
    let ids = map_keys(reschedule);
    let ghost index = dispatcher_index(ctx.fragment_dispatcher_map@);
    let ghost sources = ctx.no_shuffle_source_fragment_ids@;
    let ghost targets = ctx.no_shuffle_target_fragment_ids@;
    let ghost pl = nested(places@);
    let ghost bits0 = bits_of(fragment_actor_bitmap@);
    let mut i: usize = 0;
    assert(ids@.take(0) =~= Seq::<u32>::empty());
    while i < ids.len()
        invariant
            i <= ids.len(),
            ids@.to_set() == reschedule@.dom(),
            index == dispatcher_index(ctx.fragment_dispatcher_map@),
            sources == ctx.no_shuffle_source_fragment_ids@,
            targets == ctx.no_shuffle_target_fragment_ids@,
            pl == nested(places@),
            followers_aligned(reschedule@.dom(), index, sources, targets, pl),
            bits_of(fragment_actor_bitmap@) == all_bits(
                ids@.take(i as int),
                bits0,
                index,
                sources,
                targets,
                pl,
            ),
        decreases ids.len() - i,
    {
        let r: u32 = ids[i];
        assert(ids@.to_set().contains(ids@[i as int]));
        assert(reschedule@.dom().contains(r));
        assert(ids@.take(i + 1).drop_last() =~= ids@.take(i as int));
        assert(ids@.take(i + 1).last() == r);
        if ctx.no_shuffle_source_fragment_ids.contains(&r)
            && !ctx.no_shuffle_target_fragment_ids.contains(&r) {
            let set = collect_followers(
                r,
                &ctx.fragment_dispatcher_map,
                &ctx.no_shuffle_target_fragment_ids,
            );
            let fs = set_to_vec(&set);
            let ghost m0 = bits_of(fragment_actor_bitmap@);
            let mut j: usize = 0;
            assert(fs@.take(0) =~= Seq::<u32>::empty());
            while j < fs.len()
                invariant
                    j <= fs.len(),
                    fs@.to_set() == followers(index, targets, r),
                    reschedule@.dom().contains(r),
                    is_root(sources, targets, r),
                    pl == nested(places@),
                    followers_aligned(reschedule@.dom(), index, sources, targets, pl),
                    bits_of(fragment_actor_bitmap@) == add_followers(
                        m0,
                        r,
                        fs@.take(j as int),
                        pl,
                    ),
                decreases fs.len() - j,
            {
                let f: u32 = fs[j];
                assert(fs@.to_set().contains(fs@[j as int]));
                assert(followers(index, targets, r).contains(f));
                assert(fs@.take(j + 1).drop_last() =~= fs@.take(j as int));
                assert(fs@.take(j + 1).last() == f);
                assert(aligned(pl[r], pl[f]));
                if !fragment_actor_bitmap.contains_key(&f) {
                    let root_places = places.get(&r).unwrap();
                    let own_places = places.get(&f).unwrap();
                    let ghost b0 = fragment_actor_bitmap@;
                    let copied = match fragment_actor_bitmap.get(&r) {
                        Some(root_bitmaps) => copy_follower_bits(
                            root_places,
                            own_places,
                            root_bitmaps,
                        ),
                        None => {
                            let none: BTreeMap<u32, Bitmap> = BTreeMap::new();
                            assert(bitmaps(none@) =~= Map::<u32, Seq<bool>>::empty());
                            copy_follower_bits(root_places, own_places, &none)
                        },
                    };
                    let ghost cv = bitmaps(copied@);
                    fragment_actor_bitmap.insert(f, copied);
                    assert(bits_of(fragment_actor_bitmap@) =~= bits_of(b0).insert(f, cv));
                }
                j = j + 1;
            }
            assert(fs@.take(j as int) =~= fs@);
        }
        i = i + 1;
    }
    assert(ids@.take(i as int) =~= ids@);
}

/// Two actors of fragments that are joined by a `NoShuffle` edge, on the same parallel unit.
#[derive(Clone, Copy, Debug, PartialEq, Eq, Structural)]
pub struct NoShufflePair {
    pub upstream_fragment_id: u32,
    pub upstream_actor_id: u32,
    pub fragment_id: u32,
    pub actor_id: u32,
}

/// The pairs of actors of two fragments.
pub open spec fn pairs_between(
    ids: Seq<u32>,
    up: u32,
    f: u32,
    places: Map<u32, Map<u32, u32>>,
) -> Seq<NoShufflePair>
    decreases ids.len(),
{
    if ids.len() == 0 {
        Seq::empty()
    } else {
        pairs_between(ids.drop_last(), up, f, places).push(
            NoShufflePair {
                upstream_fragment_id: up,
                upstream_actor_id: ids.last(),
                fragment_id: f,
                actor_id: actor_at(places[f], places[up][ids.last()])->Some_0,
            },
        )
    }
}

/// The edge joins the actors of a rescheduled fragment one to one with those of a fragment that
/// follows it.
pub open spec fn is_followed_edge(
    index: Map<u32, Map<u32, DispatcherType>>,
    sources: Set<u32>,
    targets: Set<u32>,
    up: u32,
    f: u32,
) -> bool {
    index.contains_key(up) && index[up].contains_key(f) && targets.contains(f) && (if targets.contains(
        up,
    ) {
        index[up][f] == DispatcherType::NoShuffle
    } else {
        sources.contains(up)
    })
}

/// The pairs of actors along the edges that start at a fragment.
pub open spec fn pairs_from(
    fs: Seq<u32>,
    up: u32,
    index: Map<u32, Map<u32, DispatcherType>>,
    sources: Set<u32>,
    targets: Set<u32>,
    places: Map<u32, Map<u32, u32>>,
) -> Seq<NoShufflePair>
    decreases fs.len(),
{
    if fs.len() == 0 {
        Seq::empty()
    } else {
        let pairs = pairs_from(fs.drop_last(), up, index, sources, targets, places);
        if is_followed_edge(index, sources, targets, up, fs.last()) {
            pairs + pairs_between(ascending_of(places[up].dom()), up, fs.last(), places)
        } else {
            pairs
        }
    }
}

/// The pairs of actors along the edges that start at the given fragments.
pub open spec fn all_pairs(
    ids: Seq<u32>,
    index: Map<u32, Map<u32, DispatcherType>>,
    sources: Set<u32>,
    targets: Set<u32>,
    places: Map<u32, Map<u32, u32>>,
) -> Seq<NoShufflePair>
    decreases ids.len(),
{
    if ids.len() == 0 {
        Seq::empty()
    } else {
        let pairs = all_pairs(ids.drop_last(), index, sources, targets, places);
        let up = ids.last();
        if index.contains_key(up) {
            pairs + pairs_from(
                ascending_of(index[up].dom()),
                up,
                index,
                sources,
                targets,
                places,
            )
        } else {
            pairs
        }
    }
}

/// The fragments at the two ends of the edges are placed alike.
pub open spec fn edges_aligned(
    reschedule: Set<u32>,
    index: Map<u32, Map<u32, DispatcherType>>,
    sources: Set<u32>,
    targets: Set<u32>,
    places: Map<u32, Map<u32, u32>>,
) -> bool {
    forall|up: u32, f: u32|
        reschedule.contains(up) && #[trigger] is_followed_edge(index, sources, targets, up, f)
            ==> places.contains_key(up) && places.contains_key(f) && aligned(places[up], places[f])
}

/// Appends the pairs of actors of two fragments.
fn push_pairs(
    res: &mut Vec<NoShufflePair>,
    up: u32,
    f: u32,
    places: &BTreeMap<u32, BTreeMap<u32, u32>>,
)
    requires
        places@.contains_key(up),
        places@.contains_key(f),
        aligned(nested(places@)[up], nested(places@)[f]),
    ensures
        final(res)@ == old(res)@ + pairs_between(
            ascending_of(nested(places@)[up].dom()),
            up,
            f,
            nested(places@),
        ),
{
    let ghost pl = nested(places@);
    let up_places = places.get(&up).unwrap();
    let own_places = places.get(&f).unwrap();
    let ids = map_keys(up_places);
    let own = map_keys(own_places);
    let ghost res0 = res@;
    let mut i: usize = 0;
    assert(ids@.take(0) =~= Seq::<u32>::empty());
    assert(res0 + pairs_between(ids@.take(0), up, f, pl) =~= res0);
    while i < ids.len()
        invariant
            i <= ids.len(),
            pl == nested(places@),
            pl[up] == up_places@,
            pl[f] == own_places@,
            ids@.to_set() == up_places@.dom(),
            own@ == ascending_of(own_places@.dom()),
            own@.to_set() == own_places@.dom(),
            aligned(pl[up], pl[f]),
            res@ == res0 + pairs_between(ids@.take(i as int), up, f, pl),
        decreases ids.len() - i,
    {
        let a: u32 = ids[i];
        assert(ids@.to_set().contains(ids@[i as int]));
        assert(pl[up].contains_key(a));
        assert(ids@.take(i + 1).drop_last() =~= ids@.take(i as int));
        assert(ids@.take(i + 1).last() == a);
        let unit: u32 = *up_places.get(&a).unwrap();
        let actor_id: u32 = find_actor_at(&own, own_places, unit).unwrap();
        let pair = NoShufflePair {
            upstream_fragment_id: up,
            upstream_actor_id: a,
            fragment_id: f,
            actor_id,
        };
        res.push(pair);
        assert(res@ =~= res0 + pairs_between(ids@.take(i as int), up, f, pl).push(pair));
        i = i + 1;
    }
    assert(ids@.take(i as int) =~= ids@);
}

/// The pairs of actors along all edges that the reschedule follows.
pub fn collect_pairs(
    reschedule: &BTreeMap<u32, ParallelUnitReschedule>,
    ctx: &RescheduleContext,
    places: &BTreeMap<u32, BTreeMap<u32, u32>>,
) -> (res: Vec<NoShufflePair>)
    requires
        edges_aligned(
            reschedule@.dom(),
            dispatcher_index(ctx.fragment_dispatcher_map@),
            ctx.no_shuffle_source_fragment_ids@,
            ctx.no_shuffle_target_fragment_ids@,
            nested(places@),
        ),
    ensures
        res@ == all_pairs(
            ascending_of(reschedule@.dom()),
            dispatcher_index(ctx.fragment_dispatcher_map@),
            ctx.no_shuffle_source_fragment_ids@,
            ctx.no_shuffle_target_fragment_ids@,
            nested(places@),
        ),
{
    let ids = map_keys(reschedule);
    let ghost index = dispatcher_index(ctx.fragment_dispatcher_map@);
    let ghost sources = ctx.no_shuffle_source_fragment_ids@;
    let ghost targets = ctx.no_shuffle_target_fragment_ids@;
    let ghost pl = nested(places@);
    let mut res: Vec<NoShufflePair> = Vec::new();
    let mut i: usize = 0;
    assert(ids@.take(0) =~= Seq::<u32>::empty());
    while i < ids.len()
        invariant
            i <= ids.len(),
            ids@.to_set() == reschedule@.dom(),
            index == dispatcher_index(ctx.fragment_dispatcher_map@),
            sources == ctx.no_shuffle_source_fragment_ids@,
            targets == ctx.no_shuffle_target_fragment_ids@,
            pl == nested(places@),
            edges_aligned(reschedule@.dom(), index, sources, targets, pl),
            res@ == all_pairs(ids@.take(i as int), index, sources, targets, pl),
        decreases ids.len() - i,
    {
        let up: u32 = ids[i];
        assert(ids@.to_set().contains(ids@[i as int]));
        assert(reschedule@.dom().contains(up));
        assert(ids@.take(i + 1).drop_last() =~= ids@.take(i as int));
        assert(ids@.take(i + 1).last() == up);
        if let Some(downs) = ctx.fragment_dispatcher_map.get(&up) {
            assert(index.contains_key(up) && index[up] == downs@);
            let fs = map_keys(downs);
            let ghost res0 = res@;
            let mut j: usize = 0;
            assert(fs@.take(0) =~= Seq::<u32>::empty());
            assert(res0 + pairs_from(fs@.take(0), up, index, sources, targets, pl) =~= res0);
            while j < fs.len()
                invariant
                    j <= fs.len(),
                    index.contains_key(up),
                    index[up] == downs@,
                    fs@.to_set() == downs@.dom(),
                    sources == ctx.no_shuffle_source_fragment_ids@,
                    targets == ctx.no_shuffle_target_fragment_ids@,
                    reschedule@.dom().contains(up),
                    pl == nested(places@),
                    edges_aligned(reschedule@.dom(), index, sources, targets, pl),
                    res@ == res0 + pairs_from(
                        fs@.take(j as int),
                        up,
                        index,
                        sources,
                        targets,
                        pl,
                    ),
                decreases fs.len() - j,
            {
                let f: u32 = fs[j];
                assert(fs@.to_set().contains(fs@[j as int]));
                assert(fs@.take(j + 1).drop_last() =~= fs@.take(j as int));
                assert(fs@.take(j + 1).last() == f);
                let ty: DispatcherType = *downs.get(&f).unwrap();
                let followed: bool = ctx.no_shuffle_target_fragment_ids.contains(&f) && (
                if ctx.no_shuffle_target_fragment_ids.contains(&up) {
                    ty == DispatcherType::NoShuffle
                } else {
                    ctx.no_shuffle_source_fragment_ids.contains(&up)
                });
                assert(followed == is_followed_edge(index, sources, targets, up, f));
                if followed {
                    let ghost res1 = res@;
                    push_pairs(&mut res, up, f, places);
                    assert(res@ =~= res0 + pairs_from(
                        fs@.take(j + 1),
                        up,
                        index,
                        sources,
                        targets,
                        pl,
                    ));
                }
                j = j + 1;
            }
            assert(fs@.take(j as int) =~= fs@);
        }
        i = i + 1;
    }
    assert(ids@.take(i as int) =~= ids@);
    res
}

/// The upstream actor that the last pair of an actor and an upstream fragment names.
pub open spec fn upstream_actor(pairs: Seq<NoShufflePair>, actor_id: u32, up: u32) -> Option<u32>
    decreases pairs.len(),
{
    if pairs.len() == 0 {
        None
    } else if pairs.last().actor_id == actor_id && pairs.last().upstream_fragment_id == up {
        Some(pairs.last().upstream_actor_id)
    } else {
        upstream_actor(pairs.drop_last(), actor_id, up)
    }
}

/// The downstream actor that the last pair of an actor and a downstream fragment names.
pub open spec fn downstream_actor(pairs: Seq<NoShufflePair>, actor_id: u32, f: u32) -> Option<u32>
    decreases pairs.len(),
{
    if pairs.len() == 0 {
        None
    } else if pairs.last().upstream_actor_id == actor_id && pairs.last().fragment_id == f {
        Some(pairs.last().actor_id)
    } else {
        downstream_actor(pairs.drop_last(), actor_id, f)
    }
}

/// The upstream actor of an actor in a fragment.
pub fn find_upstream_actor(pairs: &Vec<NoShufflePair>, actor_id: u32, up: u32) -> (res: Option<u32>)
    ensures
        res == upstream_actor(pairs@, actor_id, up),
{
    let mut i: usize = pairs.len();
    assert(pairs@.take(i as int) =~= pairs@);
    while i > 0
        invariant
            i <= pairs.len(),
            upstream_actor(pairs@, actor_id, up) == upstream_actor(
                pairs@.take(i as int),
                actor_id,
                up,
            ),
        decreases i,
    {
        assert(pairs@.take(i as int).last() == pairs@[i - 1]);
        assert(pairs@.take(i as int).drop_last() =~= pairs@.take(i - 1));
        if pairs[i - 1].actor_id == actor_id && pairs[i - 1].upstream_fragment_id == up {
            return Some(pairs[i - 1].upstream_actor_id);
        }
        i = i - 1;
    }
    None
}

/// The downstream actor of an actor in a fragment.
pub fn find_downstream_actor(pairs: &Vec<NoShufflePair>, actor_id: u32, f: u32) -> (res: Option<u32>)
    ensures
        res == downstream_actor(pairs@, actor_id, f),
{
    let mut i: usize = pairs.len();
    assert(pairs@.take(i as int) =~= pairs@);
    while i > 0
        invariant
            i <= pairs.len(),
            downstream_actor(pairs@, actor_id, f) == downstream_actor(
                pairs@.take(i as int),
                actor_id,
                f,
            ),
        decreases i,
    {
        assert(pairs@.take(i as int).last() == pairs@[i - 1]);
        assert(pairs@.take(i as int).drop_last() =~= pairs@.take(i - 1));
        if pairs[i - 1].upstream_actor_id == actor_id && pairs[i - 1].fragment_id == f {
            return Some(pairs[i - 1].actor_id);
        }
        i = i - 1;
    }
    None
}

} // verus!
