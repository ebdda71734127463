//! The reschedule of each fragment, as it is carried out.
use crate::common::bitmap::{Bitmap, VNODE_COUNT};
use crate::common::collections::{ascending_of, key_set, map_keys};
use crate::common::worker::ParallelUnit;
use crate::scale::actors::{all_owned, lists_of, owners_of};
use crate::scale::arrange::{inner, nested};
use crate::scale::context::RescheduleContext;
use crate::scale::links::dispatcher_index;
use crate::scale::model::{ActorMapping, ActorState, ActorStatus, CustomActorInfo};
use crate::scale::model::{CustomFragmentInfo, DispatcherType, FragmentDistributionType};
use crate::scale::model::{ParallelUnitReschedule, ScaleError, StreamActor};
use crate::scale::prepare::{actors_in, PreparedReschedule};
use crate::scale::rebalance::bitmaps;
use crate::scale::relation::bits_of;
use std::collections::BTreeMap;
use std::collections::BTreeSet;
use vstd::prelude::*;

verus! {

broadcast use {
    vstd::std_specs::btree::group_btree_axioms,
    vstd::laws_cmp::group_laws_cmp,
};

/// The reschedule of one fragment.
#[derive(Debug)]
pub struct Reschedule {
    /// The new actors by worker.
    pub added_actors: BTreeMap<u32, Vec<u32>>,
    /// The actors that go.
    pub removed_actors: BTreeSet<u32>,
    /// The virtual nodes of the actors of which they change.
    pub vnode_bitmap_updates: BTreeMap<u32, Bitmap>,
    /// The upstream fragments and the dispatchers that send to the fragment.
    pub upstream_fragment_dispatcher_ids: Vec<(u32, u64)>,
    /// The owners of the virtual nodes, where upstream dispatchers go by them.
    pub upstream_dispatcher_mapping: Option<ActorMapping>,
    /// The downstream fragments that merge the rows of the fragment.
    pub downstream_fragment_ids: Vec<u32>,
    /// The splits of the actors that read a source.
    pub actor_splits: BTreeMap<u32, Vec<u64>>,
    /// Whether barriers are injected into the fragment.
    pub injectable: bool,
    /// The new actors with where they run.
    pub newly_created_actors: Vec<(StreamActor, ActorStatus)>,
}

/// The first of the given units that belongs to no worker.
pub open spec fn first_unowned(ids: Seq<u32>, units: Map<u32, u32>, owners: Map<u32, u32>) -> Option<u32>
    decreases ids.len(),
{
    if ids.len() == 0 {
        None
    } else if !owners.contains_key(units[ids[0]]) {
        Some(units[ids[0]])
    } else {
        first_unowned(ids.skip(1), units, owners)
    }
}

/// The first new unit of the given fragments that belongs to no worker.
pub open spec fn first_unowned_in(
    fs: Seq<u32>,
    to_create: Map<u32, Map<u32, u32>>,
    owners: Map<u32, u32>,
) -> Option<u32>
    decreases fs.len(),
{
    if fs.len() == 0 {
        None
    } else {
        let units = inner(to_create, fs[0]);
        match first_unowned(ascending_of(units.dom()), units, owners) {
            Some(unit) => Some(unit),
            None => first_unowned_in(fs.skip(1), to_create, owners),
        }
    }
}

/// The given actors by the worker that has their unit.
pub open spec fn by_worker(ids: Seq<u32>, units: Map<u32, u32>, owners: Map<u32, u32>) -> Map<
    u32,
    Seq<u32>,
>
    decreases ids.len(),
{
    if ids.len() == 0 {
        Map::empty()
    } else {
        let m = by_worker(ids.drop_last(), units, owners);
        let w = owners[units[ids.last()]];
        m.insert(
            w,
            (if m.contains_key(w) {
                m[w]
            } else {
                Seq::empty()
            }).push(ids.last()),
        )
    }
}

/// The virtual nodes of the actors of which they change: those of new actors, and those that differ
/// from what the actor had.
pub open spec fn changed_bits(
    bits: Map<u32, Seq<bool>>,
    places: Map<u32, u32>,
    actors: Map<u32, &CustomActorInfo>,
) -> Map<u32, Seq<bool>> {
    Map::new(
        |a: u32| bits.contains_key(a) && !(places.contains_key(a) && keeps_bits(actors, a, bits[a])),
        |a: u32| bits[a],
    )
}

/// The actor runs already, and owns exactly these virtual nodes.
pub open spec fn keeps_bits(actors: Map<u32, &CustomActorInfo>, a: u32, bits: Seq<bool>) -> bool {
    actors.contains_key(a) && (actors[a].vnode_bitmap matches Some(own) && own@ == bits)
}

/// A dispatcher of the given upstream list sends to the fragment, and not one to one.
pub open spec fn sends(
    ups: Map<u32, Vec<(u32, u64, DispatcherType)>>,
    actor_id: u32,
    up: u32,
    dispatcher: u64,
) -> bool {
    ups.contains_key(actor_id) && exists|k: int|
        0 <= k < ups[actor_id]@.len() && (#[trigger] ups[actor_id]@[k]).0 == up
            && ups[actor_id]@[k].1 == dispatcher && ups[actor_id]@[k].2
            != DispatcherType::NoShuffle
}

/// The dispatchers that send to some of the given actors, and not one to one.
pub open spec fn sends_to_any(
    actors: Seq<CustomActorInfo>,
    ups: Map<u32, Vec<(u32, u64, DispatcherType)>>,
    up: u32,
    dispatcher: u64,
) -> bool {
    exists|i: int|
        0 <= i < actors.len() && sends(ups, (#[trigger] actors[i]).actor_id, up, dispatcher)
}

/// Lexicographic order of pairs.
pub open spec fn before(a: (u32, u64), b: (u32, u64)) -> bool {
    a.0 < b.0 || a.0 == b.0 && a.1 < b.1
}

/// The pairs are in ascending order, each once.
pub open spec fn pairs_ascending(s: Seq<(u32, u64)>) -> bool {
    forall|i: int, j: int| 0 <= i < j < s.len() ==> before(#[trigger] s[i], #[trigger] s[j])
}

/// The fragments at the end of a dispatcher that is not one to one.
pub open spec fn merging_downstreams(fs: Seq<u32>, types: Map<u32, DispatcherType>) -> Seq<u32>
    decreases fs.len(),
{
    if fs.len() == 0 {
        Seq::empty()
    } else if types[fs.last()] != DispatcherType::NoShuffle {
        merging_downstreams(fs.drop_last(), types).push(fs.last())
    } else {
        merging_downstreams(fs.drop_last(), types)
    }
}

/// Some upstream fragment sends to the fragment by hash.
pub open spec fn hash_in(
    fragment: &CustomFragmentInfo,
    index: Map<u32, Map<u32, DispatcherType>>,
) -> bool {
    exists|i: int|
        0 <= i < fragment.upstream_fragment_ids@.len() && sends_by_hash(
            index,
            #[trigger] fragment.upstream_fragment_ids@[i],
            fragment.fragment_id,
        )
}

pub open spec fn sends_by_hash(
    index: Map<u32, Map<u32, DispatcherType>>,
    up: u32,
    f: u32,
) -> bool {
    index.contains_key(up) && index[up].contains_key(f) && index[up][f] == DispatcherType::Hash
}

/// All actors are on one parallel unit.
pub open spec fn on_one_unit(places: Map<u32, u32>) -> bool {
    forall|a: u32, b: u32|
        #![trigger places.contains_key(a), places.contains_key(b)]
        places.contains_key(a) && places.contains_key(b) ==> places[a] == places[b]
}

/// The owners of the virtual nodes that upstream dispatchers go by.
pub open spec fn new_mapping(
    fragment: &CustomFragmentInfo,
    index: Map<u32, Map<u32, DispatcherType>>,
    places: Map<u32, u32>,
    bits: Map<u32, Seq<bool>>,
) -> Option<Seq<u32>> {
    if fragment.distribution_type != FragmentDistributionType::Hash || !hash_in(fragment, index) {
        None
    } else if on_one_unit(places) {
        let single = ascending_of(places.dom()).last();
        Some(Seq::new(VNODE_COUNT as nat, |k: int| single))
    } else {
        Some(owners_of(bits))
    }
}

/// The state of a new actor on a parallel unit.
pub open spec fn new_status(unit: u32, owners: Map<u32, u32>) -> ActorStatus {
    ActorStatus {
        parallel_unit: Some(ParallelUnit { id: unit, worker_node_id: owners[unit] }),
        state: ActorState::Inactive,
    }
}

/// The new actors of a fragment with where they run.
pub open spec fn placed_actors(
    ids: Seq<u32>,
    units: Map<u32, u32>,
    actors: Map<u32, StreamActor>,
    owners: Map<u32, u32>,
) -> Seq<(StreamActor, ActorStatus)> {
    Seq::new(ids.len(), |i: int| (actors[ids[i]], new_status(units[ids[i]], owners)))
}

/// The reschedule of a fragment can be put together.
pub open spec fn can_assemble(
    ctx: &RescheduleContext,
    to_create: Map<u32, Map<u32, u32>>,
    places: Map<u32, Map<u32, u32>>,
    bits: Map<u32, Map<u32, Seq<bool>>>,
    actors: Map<u32, Map<u32, StreamActor>>,
    f: u32,
) -> bool {
    let fragment = ctx.fragment_map@[f];
    &&& ctx.fragment_map@.contains_key(f)
    &&& places.contains_key(f) && places[f].dom().len() > 0
    &&& bits.contains_key(f)
    &&& fragment.distribution_type != FragmentDistributionType::Unspecified
    &&& fragment.distribution_type == FragmentDistributionType::Single ==> bits[f].dom().is_empty()
    &&& fragment.distribution_type == FragmentDistributionType::Hash ==> forall|a: u32| #[trigger]
        places[f].contains_key(a) ==> bits[f].contains_key(a)
    &&& fragment.distribution_type == FragmentDistributionType::Hash && hash_in(
        fragment,
        dispatcher_index(ctx.fragment_dispatcher_map@),
    ) && !on_one_unit(places[f]) ==> all_owned(bits[f])
    &&& forall|i: int|
        0 <= i < fragment.actors@.len() ==> no_unspecified(
            ctx.upstream_dispatchers@,
            (#[trigger] fragment.actors@[i]).actor_id,
        )
    &&& to_create.contains_key(f) ==> actors.contains_key(f) && to_create[f].dom().subset_of(
        actors[f].dom(),
    )
}

/// Every dispatcher of the list has a type.
pub open spec fn no_unspecified(
    ups: Map<u32, Vec<(u32, u64, DispatcherType)>>,
    actor_id: u32,
) -> bool {
    ups.contains_key(actor_id) ==> forall|k: int|
        0 <= k < ups[actor_id]@.len() ==> (#[trigger] ups[actor_id]@[k]).2
            != DispatcherType::Unspecified
}

/// The value is the reschedule of the fragment.
pub open spec fn is_reschedule(
    ctx: &RescheduleContext,
    to_remove: Map<u32, Map<u32, u32>>,
    to_create: Map<u32, Map<u32, u32>>,
    places: Map<u32, Map<u32, u32>>,
    bits: Map<u32, Map<u32, Seq<bool>>>,
    actors: Map<u32, Map<u32, StreamActor>>,
    splits: Map<u32, BTreeMap<u32, Vec<u64>>>,
    injectable_flags: u32,
    f: u32,
    res: Reschedule,
) -> bool {
    let fragment = ctx.fragment_map@[f];
    let index = dispatcher_index(ctx.fragment_dispatcher_map@);
    let owners = ctx.parallel_unit_id_to_worker_id@;
    let units = inner(to_create, f);
    let ids = ascending_of(units.dom());
    &&& lists_of(res.added_actors@) == by_worker(ids, units, owners)
    &&& res.removed_actors@ == inner(to_remove, f).dom()
    &&& bitmaps(res.vnode_bitmap_updates@) == (if fragment.distribution_type
        == FragmentDistributionType::Hash {
        changed_bits(bits[f], places[f], ctx.actor_map@)
    } else {
        Map::empty()
    })
    &&& pairs_ascending(res.upstream_fragment_dispatcher_ids@)
    &&& forall|up: u32, d: u64| #[trigger]
        res.upstream_fragment_dispatcher_ids@.contains((up, d)) <==> sends_to_any(
            fragment.actors@,
            ctx.upstream_dispatchers@,
            up,
            d,
        )
    &&& match new_mapping(fragment, index, places[f], bits[f]) {
        None => res.upstream_dispatcher_mapping is None,
        Some(m) => res.upstream_dispatcher_mapping matches Some(mapping) && mapping@ == m,
    }
    &&& res.downstream_fragment_ids@ == (if index.contains_key(f) {
        merging_downstreams(ascending_of(index[f].dom()), index[f])
    } else {
        Seq::empty()
    })
    &&& same_splits(splits, f, res.actor_splits@)
    &&& res.injectable == ((fragment.fragment_type_mask & injectable_flags) != 0)
    &&& res.newly_created_actors@ == placed_actors(ids, units, actors[f], owners)
}

/// The splits of a fragment; none where none are given.
pub open spec fn same_splits(
    splits: Map<u32, BTreeMap<u32, Vec<u64>>>,
    f: u32,
    own: Map<u32, Vec<u64>>,
) -> bool {
    if splits.contains_key(f) {
        own == splits[f]@
    } else {
        own.dom().is_empty()
    }
}

/// Enters a pair into an ascending list.
fn insert_pair(v: &mut Vec<(u32, u64)>, x: (u32, u64))
    requires
        pairs_ascending(old(v)@),
    ensures
        pairs_ascending(final(v)@),
        forall|y: (u32, u64)| #[trigger]
            final(v)@.contains(y) <==> old(v)@.contains(y) || y == x,
{
    let mut i: usize = 0;
    while i < v.len() && (v[i].0 < x.0 || v[i].0 == x.0 && v[i].1 < x.1)
        invariant
            i <= v.len(),
            v@ == old(v)@,
            forall|j: int| 0 <= j < i ==> before(#[trigger] v@[j], x),
        decreases v.len() - i,
    {
        i = i + 1;
    }
    if i < v.len() && v[i].0 == x.0 && v[i].1 == x.1 {
        assert(v@[i as int] == x);
        assert(v@.contains(x));
        return;
    }
    let ghost v0 = v@;
    v.insert(i, x);
    proof {
        assert(v@ == v0.insert(i as int, x));
        assert forall|a: int, b: int| 0 <= a < b < v@.len() implies before(
            #[trigger] v@[a],
            #[trigger] v@[b],
        ) by {
            let oa = if a < i { a } else { a - 1 };
            let ob = if b < i { b } else { b - 1 };
            if a != i && b != i {
                assert(before(v0[oa], v0[ob]));
            } else if a == i {
                assert(before(x, v0[i as int]));
                if ob > i {
                    assert(before(v0[i as int], v0[ob]));
                }
            }
        }
        assert forall|y: (u32, u64)| #[trigger] v@.contains(y) <==> v0.contains(y) || y == x by {
            if v@.contains(y) {
                let k = choose|k: int| 0 <= k < v@.len() && v@[k] == y;
                if k < i {
                    assert(v0[k] == y);
                } else if k > i {
                    assert(v0[k - 1] == y);
                }
            }
            if v0.contains(y) {
                let k = choose|k: int| 0 <= k < v0.len() && v0[k] == y;
                if k < i {
                    assert(v@[k] == y);
                } else {
                    assert(v@[k + 1] == y);
                }
            }
            if y == x {
                assert(v@[i as int] == x);
            }
        }
    }
}

/// The dispatchers that send to the actors of a fragment, and not one to one.
fn collect_upstream_dispatcher_ids(ctx: &RescheduleContext, actors: &Vec<CustomActorInfo>) -> (res:
    Vec<(u32, u64)>)
    ensures
        pairs_ascending(res@),
        forall|up: u32, d: u64| #[trigger]
            res@.contains((up, d)) <==> sends_to_any(actors@, ctx.upstream_dispatchers@, up, d),
{
    let ghost ups = ctx.upstream_dispatchers@;
    let mut res: Vec<(u32, u64)> = Vec::new();
    let mut i: usize = 0;
    while i < actors.len()
        invariant
            i <= actors.len(),
            ups == ctx.upstream_dispatchers@,
            pairs_ascending(res@),
            forall|up: u32, d: u64| #[trigger]
                res@.contains((up, d)) <==> sends_to_any(actors@.take(i as int), ups, up, d),
        decreases actors.len() - i,
    {
        let actor_id: u32 = actors[i].actor_id;
        let ghost before_actor = res@;
        if let Some(list) = ctx.upstream_dispatchers.get(&actor_id) {
            let mut k: usize = 0;
            while k < list.len()
                invariant
                    k <= list.len(),
                    ups == ctx.upstream_dispatchers@,
                    ups.contains_key(actor_id),
                    list == ups[actor_id],
                    pairs_ascending(res@),
                    forall|up: u32, d: u64| #[trigger]
                        res@.contains((up, d)) <==> before_actor.contains((up, d)) || exists|j: int|
                            0 <= j < k && (#[trigger] list@[j]).0 == up && list@[j].1 == d
                                && list@[j].2 != DispatcherType::NoShuffle,
                decreases list.len() - k,
            {
                let (up, dispatcher, ty) = list[k];
                if ty != DispatcherType::NoShuffle {
                    insert_pair(&mut res, (up, dispatcher));
                }
                k = k + 1;
            }
        }
        proof {
            assert forall|up: u32, d: u64| #[trigger] res@.contains((up, d)) <==> sends_to_any(
                actors@.take(i + 1),
                ups,
                up,
                d,
            ) by {
                let shorter = actors@.take(i as int);
                let longer = actors@.take(i + 1);
                if sends_to_any(shorter, ups, up, d) {
                    let j = choose|j: int|
                        0 <= j < shorter.len() && sends(ups, (#[trigger] shorter[j]).actor_id, up, d);
                    assert(longer[j] == shorter[j]);
                }
                if sends(ups, actor_id, up, d) {
                    assert(longer[i as int].actor_id == actor_id);
                }
                if sends_to_any(longer, ups, up, d) {
                    let j = choose|j: int|
                        0 <= j < longer.len() && sends(ups, (#[trigger] longer[j]).actor_id, up, d);
                    if j < i {
                        assert(shorter[j] == longer[j]);
                    }
                }
            }
        }
        i = i + 1;
    }
    assert(actors@.take(i as int) =~= actors@);
    res
}

/// Whether some upstream fragment sends to the fragment by hash.
fn find_hash_in(ctx: &RescheduleContext, fragment: &CustomFragmentInfo) -> (res: bool)
    ensures
        res == hash_in(fragment, dispatcher_index(ctx.fragment_dispatcher_map@)),
{
    let ups = &fragment.upstream_fragment_ids;
    let ghost index = dispatcher_index(ctx.fragment_dispatcher_map@);
    let mut i: usize = 0;
    while i < ups.len()
        invariant
            i <= ups.len(),
            ups == fragment.upstream_fragment_ids,
            index == dispatcher_index(ctx.fragment_dispatcher_map@),
            forall|j: int|
                0 <= j < i ==> !sends_by_hash(index, #[trigger] ups@[j], fragment.fragment_id),
        decreases ups.len() - i,
    {
        if let Some(downs) = ctx.fragment_dispatcher_map.get(&ups[i]) {
            if let Some(ty) = downs.get(&fragment.fragment_id) {
                if *ty == DispatcherType::Hash {
                    assert(sends_by_hash(index, ups@[i as int], fragment.fragment_id));
                    return true;
                }
            }
        }
        i = i + 1;
    }
    false
}

/// Whether all actors are on one parallel unit.
fn all_on_one_unit(ids: &Vec<u32>, places: &BTreeMap<u32, u32>) -> (res: bool)
    requires
        ids@.to_set() == places@.dom(),
    ensures
        res == on_one_unit(places@),
{
    let mut i: usize = 0;
    while i < ids.len()
        invariant
            i <= ids.len(),
            ids@.to_set() == places@.dom(),
            forall|j: int| 0 <= j < i ==> places@[#[trigger] ids@[j]] == places@[ids@[0]],
        decreases ids.len() - i,
    {
        assert(ids@.to_set().contains(ids@[i as int]));
        assert(ids@.to_set().contains(ids@[0]));
        assert(places@.contains_key(ids@[i as int]) && places@.contains_key(ids@[0]));
        if *places.get(&ids[i]).unwrap() != *places.get(&ids[0]).unwrap() {
            return false;
        }
        i = i + 1;
    }
    assert forall|a: u32, b: u32|
        #![trigger places@.contains_key(a), places@.contains_key(b)]
        places@.contains_key(a) && places@.contains_key(b) implies places@[a] == places@[b] by {
        assert(ids@.to_set().contains(a) && ids@.to_set().contains(b));
        let j = choose|j: int| 0 <= j < ids@.len() && ids@[j] == a;
        let k = choose|k: int| 0 <= k < ids@.len() && ids@[k] == b;
        assert(places@[ids@[j]] == places@[ids@[k]]);
    }
    true
}

/// The owners of the virtual nodes that upstream dispatchers go by.
fn find_mapping(
    ctx: &RescheduleContext,
    fragment: &CustomFragmentInfo,
    places: &BTreeMap<u32, u32>,
    own: &BTreeMap<u32, Bitmap>,
) -> (res: Option<ActorMapping>)
    requires
        places@.dom().len() > 0,
        fragment.distribution_type == FragmentDistributionType::Hash && hash_in(
            fragment,
            dispatcher_index(ctx.fragment_dispatcher_map@),
        ) && !on_one_unit(places@) ==> all_owned(bitmaps(own@)),
    ensures
        match new_mapping(
            fragment,
            dispatcher_index(ctx.fragment_dispatcher_map@),
            places@,
            bitmaps(own@),
        ) {
            None => res is None,
            Some(m) => res matches Some(mapping) && mapping@ == m,
        },
{
    if fragment.distribution_type != FragmentDistributionType::Hash {
        return None;
    }
    if !find_hash_in(ctx, fragment) {
        return None;
    }
    let ids = map_keys(places);
    if all_on_one_unit(&ids, places) {
        proof {
            crate::common::collections::lemma_ascending_len(ids@);
        }
        Some(ActorMapping::new_single(ids[ids.len() - 1]))
    } else {
        Some(ActorMapping::from_bitmaps(own))
    }
}

/// The virtual nodes of the actors of which they change.
fn keep_changed(ctx: &RescheduleContext, places: &BTreeMap<u32, u32>, own: &BTreeMap<u32, Bitmap>) -> (res:
    BTreeMap<u32, Bitmap>)
    ensures
        bitmaps(res@) == changed_bits(bitmaps(own@), places@, ctx.actor_map@),
{
    let ids = map_keys(own);
    let ghost bits = bitmaps(own@);
    let ghost all = changed_bits(bits, places@, ctx.actor_map@);
    let mut res: BTreeMap<u32, Bitmap> = BTreeMap::new();
    let mut i: usize = 0;
    assert(bitmaps(res@) =~= all.restrict(ids@.take(0).to_set()));
    while i < ids.len()
        invariant
            i <= ids.len(),
            ids@.to_set() == own@.dom(),
            bits == bitmaps(own@),
            all == changed_bits(bits, places@, ctx.actor_map@),
            bitmaps(res@) == all.restrict(ids@.take(i as int).to_set()),
        decreases ids.len() - i,
    {
        let a: u32 = ids[i];
        assert(ids@.to_set().contains(ids@[i as int]));
        assert(bits.contains_key(a));
        let bitmap = own.get(&a).unwrap();
        let mut keeps: bool = false;
        if places.contains_key(&a) {
            if let Some(actor) = ctx.actor_map.get(&a) {
                if let Some(previous) = &actor.vnode_bitmap {
                    keeps = previous.same_bits(bitmap);
                }
            }
        }
        let ghost before_a = bitmaps(res@);
        if !keeps {
            let copied = bitmap.clone();
            res.insert(a, copied);
            assert(bitmaps(res@) =~= before_a.insert(a, bits[a]));
        }
        proof {
            assert(ids@.take(i + 1) =~= ids@.take(i as int).push(a));
            crate::common::collections::lemma_to_set_push(ids@.take(i as int), a);
            assert(bitmaps(res@) =~= all.restrict(ids@.take(i + 1).to_set()));
        }
        i = i + 1;
    }
    assert(ids@.take(i as int) =~= ids@);
    assert(bitmaps(res@) =~= all);
    res
}

/// The downstream fragments that merge the rows of a fragment.
fn collect_merging(ctx: &RescheduleContext, f: u32) -> (res: Vec<u32>)
    ensures
        ({
            let index = dispatcher_index(ctx.fragment_dispatcher_map@);
            res@ == (if index.contains_key(f) {
                merging_downstreams(ascending_of(index[f].dom()), index[f])
            } else {
                Seq::empty()
            })
        }),
{
    let mut res: Vec<u32> = Vec::new();
    let downs = match ctx.fragment_dispatcher_map.get(&f) {
        Some(downs) => downs,
        None => {
            return res;
        },
    };
    let ids = map_keys(downs);
    let mut i: usize = 0;
    assert(ids@.take(0) =~= Seq::<u32>::empty());
    while i < ids.len()
        invariant
            i <= ids.len(),
            ids@.to_set() == downs@.dom(),
            res@ == merging_downstreams(ids@.take(i as int), downs@),
        decreases ids.len() - i,
    {
        assert(ids@.to_set().contains(ids@[i as int]));
        assert(ids@.take(i + 1).drop_last() =~= ids@.take(i as int));
        assert(ids@.take(i + 1).last() == ids@[i as int]);
        if *downs.get(&ids[i]).unwrap() != DispatcherType::NoShuffle {
            res.push(ids[i]);
        }
        i = i + 1;
    }
    assert(ids@.take(i as int) =~= ids@);
    res
}

/// The new actors of a fragment by worker.
fn collect_added(ctx: &RescheduleContext, units: &BTreeMap<u32, u32>) -> (res: Result<
    BTreeMap<u32, Vec<u32>>,
    ScaleError,
>)
    ensures
        ({
            let owners = ctx.parallel_unit_id_to_worker_id@;
            let ids = ascending_of(units@.dom());
            match res {
                Ok(added) => first_unowned(ids, units@, owners) is None && lists_of(added@)
                    == by_worker(ids, units@, owners),
                Err(e) => first_unowned(ids, units@, owners) matches Some(parallel_unit_id) && e
                    == (ScaleError::ParallelUnitNotFound { parallel_unit_id }),
            }
        }),
{
    let ids = map_keys(units);
    let ghost owners = ctx.parallel_unit_id_to_worker_id@;
    let mut res: BTreeMap<u32, Vec<u32>> = BTreeMap::new();
    let mut i: usize = 0;
    assert(ids@.take(0) =~= Seq::<u32>::empty());
    assert(ids@.skip(0) =~= ids@);
    assert(lists_of(res@) =~= Map::<u32, Seq<u32>>::empty());
    while i < ids.len()
        invariant
            i <= ids.len(),
            owners == ctx.parallel_unit_id_to_worker_id@,
            ids@ == ascending_of(units@.dom()),
            ids@.to_set() == units@.dom(),
            first_unowned(ids@, units@, owners) == first_unowned(
                ids@.skip(i as int),
                units@,
                owners,
            ),
            lists_of(res@) == by_worker(ids@.take(i as int), units@, owners),
        decreases ids.len() - i,
    {
        let a: u32 = ids[i];
        assert(ids@.to_set().contains(ids@[i as int]));
        assert(ids@.skip(i as int)[0] == a);
        assert(ids@.skip(i as int).skip(1) =~= ids@.skip(i + 1));
        assert(ids@.take(i + 1).drop_last() =~= ids@.take(i as int));
        assert(ids@.take(i + 1).last() == a);
        let unit: u32 = *units.get(&a).unwrap();
        let worker_id: u32 = match ctx.parallel_unit_id_to_worker_id.get(&unit) {
            Some(worker_id) => *worker_id,
            None => {
                return Err(ScaleError::ParallelUnitNotFound { parallel_unit_id: unit });
            },
        };
        let ghost before_a = lists_of(res@);
        let mut list: Vec<u32> = match res.remove(&worker_id) {
            Some(list) => list,
            None => Vec::new(),
        };
        list.push(a);
        res.insert(worker_id, list);
        assert(lists_of(res@) =~= by_worker(ids@.take(i + 1), units@, owners));
        i = i + 1;
    }
    assert(ids@.take(i as int) =~= ids@);
    assert(ids@.skip(i as int) =~= Seq::<u32>::empty());
    Ok(res)
}

proof fn lemma_all_owned_units(ids: Seq<u32>, units: Map<u32, u32>, owners: Map<u32, u32>)
    requires
        first_unowned(ids, units, owners) is None,
    ensures
        forall|i: int| 0 <= i < ids.len() ==> owners.contains_key(units[#[trigger] ids[i]]),
    decreases ids.len(),
{
    if ids.len() > 0 {
        lemma_all_owned_units(ids.skip(1), units, owners);
        assert forall|i: int| 0 <= i < ids.len() implies owners.contains_key(
            units[#[trigger] ids[i]],
        ) by {
            if i > 0 {
                assert(ids.skip(1)[i - 1] == ids[i]);
            }
        }
    }
}

/// The new actors of a fragment with where they run.
fn place_actors(
    ctx: &RescheduleContext,
    units: &BTreeMap<u32, u32>,
    actors: BTreeMap<u32, StreamActor>,
) -> (res: Vec<(StreamActor, ActorStatus)>)
    requires
        units@.dom().subset_of(actors@.dom()),
        first_unowned(
            ascending_of(units@.dom()),
            units@,
            ctx.parallel_unit_id_to_worker_id@,
        ) is None,
    ensures
        res@ == placed_actors(
            ascending_of(units@.dom()),
            units@,
            actors@,
            ctx.parallel_unit_id_to_worker_id@,
        ),
{
    let mut actors = actors;
    let ghost all = actors@;
    let ids = map_keys(units);
    let ghost owners = ctx.parallel_unit_id_to_worker_id@;
    proof {
        lemma_all_owned_units(ids@, units@, owners);
    }
    let mut res: Vec<(StreamActor, ActorStatus)> = Vec::new();
    let mut i: usize = 0;
    while i < ids.len()
        invariant
            i <= ids.len(),
            owners == ctx.parallel_unit_id_to_worker_id@,
            ids@.to_set() == units@.dom(),
            crate::common::collections::ascending(ids@),
            units@.dom().subset_of(all.dom()),
            forall|j: int| 0 <= j < ids.len() ==> owners.contains_key(units@[#[trigger] ids@[j]]),
            forall|j: int|
                i <= j < ids.len() ==> actors@.contains_key(#[trigger] ids@[j]) && actors@[ids@[j]]
                    == all[ids@[j]],
            res@.len() == i,
            forall|j: int|
                0 <= j < i ==> #[trigger] res@[j] == (
                    all[ids@[j]],
                    new_status(units@[ids@[j]], owners),
                ),
        decreases ids.len() - i,
    {
        let a: u32 = ids[i];
        assert(ids@.to_set().contains(ids@[i as int]));
        let unit: u32 = *units.get(&a).unwrap();
        let worker_node_id: u32 = *ctx.parallel_unit_id_to_worker_id.get(&unit).unwrap();
        let actor = actors.remove(&a).unwrap();
        let status = ActorStatus {
            parallel_unit: Some(ParallelUnit { id: unit, worker_node_id }),
            state: ActorState::Inactive,
        };
        res.push((actor, status));
        i = i + 1;
    }
    assert(res@ =~= placed_actors(ids@, units@, all, owners));
    res
}

/// Puts the reschedule of one fragment together.
fn assemble_one(
    ctx: &RescheduleContext,
    removed: Option<&BTreeMap<u32, u32>>,
    units: Option<&BTreeMap<u32, u32>>,
    places: &BTreeMap<u32, u32>,
    own: &BTreeMap<u32, Bitmap>,
    actors: Option<BTreeMap<u32, StreamActor>>,
    splits: Option<BTreeMap<u32, Vec<u64>>>,
    injectable_flags: u32,
    f: u32,
    Ghost(to_remove): Ghost<Map<u32, Map<u32, u32>>>,
    Ghost(to_create): Ghost<Map<u32, Map<u32, u32>>>,
    Ghost(all_places): Ghost<Map<u32, Map<u32, u32>>>,
    Ghost(bits): Ghost<Map<u32, Map<u32, Seq<bool>>>>,
    Ghost(all_actors): Ghost<Map<u32, Map<u32, StreamActor>>>,
    Ghost(all_splits): Ghost<Map<u32, BTreeMap<u32, Vec<u64>>>>,
) -> (res: Result<Reschedule, ScaleError>)
    requires
        can_assemble(ctx, to_create, all_places, bits, all_actors, f),
        removed matches Some(m) ==> to_remove.contains_key(f) && m@ == to_remove[f],
        removed is None ==> !to_remove.contains_key(f),
        units matches Some(m) ==> to_create.contains_key(f) && m@ == to_create[f],
        units is None ==> !to_create.contains_key(f),
        places@ == all_places[f],
        bitmaps(own@) == bits[f],
        actors matches Some(m) ==> all_actors.contains_key(f) && m@ == all_actors[f],
        actors is None ==> !all_actors.contains_key(f),
        splits matches Some(m) ==> all_splits.contains_key(f) && m == all_splits[f],
        splits is None ==> !all_splits.contains_key(f),
    ensures
        ({
            let own_units = inner(to_create, f);
            let bad = first_unowned(
                ascending_of(own_units.dom()),
                own_units,
                ctx.parallel_unit_id_to_worker_id@,
            );
            match res {
                Ok(r) => bad is None && is_reschedule(
                    ctx,
                    to_remove,
                    to_create,
                    all_places,
                    bits,
                    all_actors,
                    all_splits,
                    injectable_flags,
                    f,
                    r,
                ),
                Err(e) => bad matches Some(parallel_unit_id) && e
                    == (ScaleError::ParallelUnitNotFound { parallel_unit_id }),
            }
        }),
{
    let fragment: &CustomFragmentInfo = *ctx.fragment_map.get(&f).unwrap();
    let none: BTreeMap<u32, u32> = BTreeMap::new();
    assert(none@ =~= Map::<u32, u32>::empty());
    let own_units = match units {
        Some(m) => m,
        None => &none,
    };
    assert(own_units@ == inner(to_create, f));
    let added_actors = match collect_added(ctx, own_units) {
        Ok(added) => added,
        Err(e) => {
            return Err(e);
        },
    };
    let removed_actors = match removed {
        Some(m) => key_set(m),
        None => key_set(&none),
    };
    let upstream_dispatcher_mapping = find_mapping(ctx, fragment, places, own);
    let upstream_fragment_dispatcher_ids = collect_upstream_dispatcher_ids(ctx, &fragment.actors);
    let downstream_fragment_ids = collect_merging(ctx, f);
    let vnode_bitmap_updates = if fragment.distribution_type == FragmentDistributionType::Hash {
        keep_changed(ctx, places, own)
    } else {
        let updates: BTreeMap<u32, Bitmap> = BTreeMap::new();
        assert(bitmaps(updates@) =~= Map::<u32, Seq<bool>>::empty());
        updates
    };
    let actor_splits = match splits {
        Some(m) => m,
        None => {
            let m: BTreeMap<u32, Vec<u64>> = BTreeMap::new();
            assert(m@.dom() =~= Set::<u32>::empty());
            m
        },
    };
    let newly_created_actors = match units {
        Some(m) => place_actors(ctx, m, actors.unwrap()),
        None => {
            let v: Vec<(StreamActor, ActorStatus)> = Vec::new();
            proof {
                let e = Seq::<u32>::empty();
                assert(e.to_set() =~= none@.dom());
                crate::common::collections::lemma_ascending_of(e);
                assert(v@ =~= placed_actors(
                    e,
                    none@,
                    all_actors[f],
                    ctx.parallel_unit_id_to_worker_id@,
                ));
            }
            v
        },
    };
    Ok(
        Reschedule {
            added_actors,
            removed_actors,
            vnode_bitmap_updates,
            upstream_fragment_dispatcher_ids,
            upstream_dispatcher_mapping,
            downstream_fragment_ids,
            actor_splits,
            injectable: (fragment.fragment_type_mask & injectable_flags) != 0,
            newly_created_actors,
        },
    )
}

/// Puts the reschedules of all fragments together, from what they come to and from the splits of
/// the actors that read a source.
pub fn assemble_reschedules(
    reschedules: &BTreeMap<u32, ParallelUnitReschedule>,
    ctx: &RescheduleContext,
    prepared: PreparedReschedule,
    splits: BTreeMap<u32, BTreeMap<u32, Vec<u64>>>,
    injectable_flags: u32,
) -> (res: Result<BTreeMap<u32, Reschedule>, ScaleError>)
    requires
        forall|f: u32| #[trigger]
            reschedules@.contains_key(f) ==> can_assemble(
                ctx,
                nested(prepared.fragment_actors_to_create@),
                nested(prepared.fragment_actors_after_reschedule@),
                bits_of(prepared.fragment_actor_bitmap@),
                actors_in(prepared.new_created_actors@),
                f,
            ),
    ensures
        ({
            let bad = first_unowned_in(
                ascending_of(reschedules@.dom()),
                nested(prepared.fragment_actors_to_create@),
                ctx.parallel_unit_id_to_worker_id@,
            );
            match res {
                Ok(rs) => {
                    &&& bad is None
                    &&& rs@.dom() == reschedules@.dom()
                    &&& forall|f: u32| #[trigger]
                        rs@.contains_key(f) ==> is_reschedule(
                            ctx,
                            nested(prepared.fragment_actors_to_remove@),
                            nested(prepared.fragment_actors_to_create@),
                            nested(prepared.fragment_actors_after_reschedule@),
                            bits_of(prepared.fragment_actor_bitmap@),
                            actors_in(prepared.new_created_actors@),
                            splits@,
                            injectable_flags,
                            f,
                            rs@[f],
                        )
                },
                Err(e) => bad matches Some(parallel_unit_id) && e
                    == (ScaleError::ParallelUnitNotFound { parallel_unit_id }),
            }
        }),
{
    let ids = map_keys(reschedules);
    let ghost p = prepared;
    let ghost to_remove = nested(prepared.fragment_actors_to_remove@);
    let ghost to_create = nested(prepared.fragment_actors_to_create@);
    let ghost places = nested(prepared.fragment_actors_after_reschedule@);
    let ghost bits = bits_of(prepared.fragment_actor_bitmap@);
    let ghost actors = actors_in(prepared.new_created_actors@);
    let ghost all_splits = splits@;
    let ghost owners = ctx.parallel_unit_id_to_worker_id@;
    let PreparedReschedule {
        fragment_actors_to_remove,
        fragment_actors_to_create,
        fragment_actors_after_reschedule,
        fragment_actor_bitmap,
        new_created_actors,
    } = prepared;
    let mut new_created_actors = new_created_actors;
    let mut splits = splits;
    let mut res: BTreeMap<u32, Reschedule> = BTreeMap::new();
    let mut i: usize = 0;
    assert(ids@.skip(0) =~= ids@);
    assert(res@.dom() =~= ids@.take(0).to_set());
    while i < ids.len()
        invariant
            i <= ids.len(),
            ids@.to_set() == reschedules@.dom(),
            ids@ == ascending_of(reschedules@.dom()),
            crate::common::collections::ascending(ids@),
            owners == ctx.parallel_unit_id_to_worker_id@,
            to_remove == nested(fragment_actors_to_remove@),
            to_create == nested(fragment_actors_to_create@),
            places == nested(fragment_actors_after_reschedule@),
            bits == bits_of(fragment_actor_bitmap@),
            p == prepared,
            to_remove == nested(p.fragment_actors_to_remove@),
            to_create == nested(p.fragment_actors_to_create@),
            places == nested(p.fragment_actors_after_reschedule@),
            bits == bits_of(p.fragment_actor_bitmap@),
            actors == actors_in(p.new_created_actors@),
            forall|f: u32| #[trigger]
                reschedules@.contains_key(f) ==> can_assemble(
                    ctx,
                    to_create,
                    places,
                    bits,
                    actors,
                    f,
                ),
            forall|j: int|
                i <= j < ids.len() ==> new_created_actors@.contains_key(#[trigger] ids@[j])
                    == actors.contains_key(ids@[j]) && (actors.contains_key(ids@[j])
                    ==> new_created_actors@[ids@[j]]@ == actors[ids@[j]]),
            forall|j: int|
                i <= j < ids.len() ==> splits@.contains_key(#[trigger] ids@[j])
                    == all_splits.contains_key(ids@[j]) && (all_splits.contains_key(ids@[j])
                    ==> splits@[ids@[j]] == all_splits[ids@[j]]),
            first_unowned_in(ids@, to_create, owners) == first_unowned_in(
                ids@.skip(i as int),
                to_create,
                owners,
            ),
            res@.dom() == ids@.take(i as int).to_set(),
            forall|f: u32| #[trigger]
                res@.contains_key(f) ==> is_reschedule(
                    ctx,
                    to_remove,
                    to_create,
                    places,
                    bits,
                    actors,
                    all_splits,
                    injectable_flags,
                    f,
                    res@[f],
                ),
        decreases ids.len() - i,
    {
        let f: u32 = ids[i];
        assert(ids@.to_set().contains(ids@[i as int]));
        assert(reschedules@.contains_key(f));
        assert(ids@.skip(i as int)[0] == f);
        assert(ids@.skip(i as int).skip(1) =~= ids@.skip(i + 1));
        assert(places.contains_key(f) && bits.contains_key(f));
        let own_actors = new_created_actors.remove(&f);
        let own_splits = splits.remove(&f);
        let one = assemble_one(
            ctx,
            fragment_actors_to_remove.get(&f),
            fragment_actors_to_create.get(&f),
            fragment_actors_after_reschedule.get(&f).unwrap(),
            fragment_actor_bitmap.get(&f).unwrap(),
            own_actors,
            own_splits,
            injectable_flags,
            f,
            Ghost(to_remove),
            Ghost(to_create),
            Ghost(places),
            Ghost(bits),
            Ghost(actors),
            Ghost(all_splits),
        );
        let one = match one {
            Ok(one) => one,
            Err(e) => {
                return Err(e);
            },
        };
        res.insert(f, one);
        proof {
            assert(ids@.take(i + 1) =~= ids@.take(i as int).push(f));
            crate::common::collections::lemma_to_set_push(ids@.take(i as int), f);
            assert(res@.dom() =~= ids@.take(i + 1).to_set());
        }
        i = i + 1;
    }
    assert(ids@.take(i as int) =~= ids@);
    assert(ids@.skip(i as int) =~= Seq::<u32>::empty());
    Ok(res)
}

} // verus!
