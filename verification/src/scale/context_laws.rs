//! Which fragments follow a reschedule, who owns a virtual node, and when the parallelism is checked.
use crate::common::bitmap::{Bitmap, VNODE_COUNT};
use crate::common::collections::{ascending_of, lemma_ascending_exists};
use crate::common::worker::{WorkerNode, WorkerType};
use crate::scale::actors::{all_owned, owner_among, owner_of, owners_of};
use crate::scale::context::{
    build_reschedule_context, collect_followers, dispatchers_of, down_step, followers, follows,
    is_context, is_down_path, is_rooted, lemma_completed, lemma_follow_edge, targets_of,
    with_followers, RescheduleContext,
};
use crate::scale::control::{cached, unit_lists, ParallelismMonitor};
use crate::scale::links::dispatcher_index;
use crate::scale::model::{
    ActorMapping, DispatcherType, ParallelUnitReschedule, RescheduleOptions, ScaleError, TableFragments,
    TableParallelism, UnitChange,
};
use crate::scale::no_shuffle::plans_of;
use crate::scale::rebalance::bitmaps;
use std::collections::{BTreeMap, BTreeSet};
use vstd::prelude::*;

verus! {

broadcast use {vstd::std_specs::btree::group_btree_axioms, vstd::laws_cmp::group_laws_cmp};

/// The fragment is joined to the other by an edge of that kind.
pub open spec fn leads(
    index: Map<u32, BTreeMap<u32, DispatcherType>>,
    x: u32,
    y: u32,
    ty: DispatcherType,
) -> bool {
    index.contains_key(x) && index[x]@.contains_key(y) && index[x]@[y] == ty
}

/// The fragments that follow a root are among the downstream ends of edges that join actors one to one. Those that
/// the root leads to by any edge follow it, and so do those that a follower leads to one to one; each follower is
/// one of these.
pub proof fn lemma_who_follows(
    root: u32,
    index: &BTreeMap<u32, BTreeMap<u32, DispatcherType>>,
    targets: &BTreeSet<u32>,
    res: BTreeSet<u32>,
    x: u32,
    y: u32,
    ty: DispatcherType,
)
    requires
        call_ensures(collect_followers, (root, index, targets), res),
    ensures
        res@.contains(y) ==> targets@.contains(y),
        targets@.contains(y) && leads(index@, root, y, ty) ==> res@.contains(y),
        res@.contains(x) && targets@.contains(y) && leads(index@, x, y, DispatcherType::NoShuffle)
            ==> res@.contains(y),
        res@.contains(y) ==> (exists|t: DispatcherType| #[trigger] leads(index@, root, y, t))
            || exists|z: u32|
            res@.contains(z) && #[trigger] leads(index@, z, y, DispatcherType::NoShuffle),
{
    let idx = dispatcher_index(index@);
    let tgt = targets@;
    if tgt.contains(y) && leads(index@, root, y, ty) {
        assert(down_step(idx, tgt, root, y, true));
        lemma_follow_edge(idx, tgt, root, root, y);
    }
    if res@.contains(x) && tgt.contains(y) && leads(index@, x, y, DispatcherType::NoShuffle) {
        assert(down_step(idx, tgt, x, y, false));
        if x == root {
            assert(down_step(idx, tgt, root, y, true));
        }
        lemma_follow_edge(idx, tgt, root, x, y);
    }
    if res@.contains(y) {
        let path = choose|path: Seq<u32>| #[trigger]
            is_down_path(idx, tgt, path) && path.first() == root && path.last() == y;
        let n = path.len() - 2;
        assert(down_step(idx, tgt, path[n], path[n + 1], n == 0));
        if n == 0 {
            assert(leads(index@, root, y, index@[root]@[y]));
        } else {
            let part = path.drop_last();
            assert forall|i: int| #![trigger part[i]] 0 <= i < part.len() - 1 implies down_step(
                idx,
                tgt,
                part[i],
                part[i + 1],
                i == 0,
            ) by {
                assert(part[i] == path[i] && part[i + 1] == path[i + 1]);
                assert(down_step(idx, tgt, path[i], path[i + 1], i == 0));
            }
            assert(is_down_path(idx, tgt, part));
            assert(part.first() == root && part.last() == path[n]);
            assert(followers(idx, tgt, root).contains(path[n]));
            assert(leads(index@, path[n], y, DispatcherType::NoShuffle));
        }
    }
}

proof fn lemma_owner_holds(ids: Seq<u32>, bits: Map<u32, Seq<bool>>, k: int)
    ensures
        owner_among(ids, bits, k) matches Some(a) ==> ids.contains(a) && bits[a][k],
    decreases ids.len(),
{
    if ids.len() > 0 {
        let rest = ids.drop_last();
        lemma_owner_holds(rest, bits, k);
        if bits[ids.last()][k] {
            assert(ids[ids.len() - 1] == ids.last());
        } else if owner_among(rest, bits, k) is Some {
            let i = choose|i: int|
                0 <= i < rest.len() && rest[i] == owner_among(rest, bits, k)->Some_0;
            assert(ids[i] == rest[i]);
        }
    }
}

/// The actor that a virtual node is mapped to is one that holds it. A mapping to one actor maps all to that actor.
pub proof fn lemma_mapped_to_holder(
    bitmap_of: &BTreeMap<u32, Bitmap>,
    res: ActorMapping,
    a: u32,
    single: ActorMapping,
    k: int,
)
    requires
        all_owned(bitmaps(bitmap_of@)),
        call_ensures(ActorMapping::from_bitmaps, (bitmap_of,), res),
        call_ensures(ActorMapping::new_single, (a,), single),
        0 <= k < VNODE_COUNT,
    ensures
        res@.len() == VNODE_COUNT && single@.len() == VNODE_COUNT,
        bitmap_of@.contains_key(res@[k]) && bitmap_of@[res@[k]]@[k],
        single@[k] == a,
{
    let bits = bitmaps(bitmap_of@);
    assert(bits.dom() =~= bitmap_of@.dom());
    let ids = ascending_of(bits.dom());
    lemma_ascending_exists(bits.dom());
    assert(owner_of(bits, k) is Some);
    lemma_owner_holds(ids, bits, k);
    assert(owners_of(bits)[k] == owner_of(bits, k)->Some_0);
    assert(ids.to_set().contains(res@[k]));
}

/// A monitor that was just made does not check. It checks at the next tick after a streaming worker came that it does
/// not know, or one whose parallel units are others; not after one that is as it knows it, nor after one that runs
/// no streaming jobs. It goes on as long as it is told to, and after a failure it tries again.
pub proof fn lemma_checked_when_changed(
    workers: &Vec<WorkerNode>,
    monitor: ParallelismMonitor,
    first: &mut ParallelismMonitor,
    at_once: bool,
    heard: &mut ParallelismMonitor,
    worker: &WorkerNode,
    ticked: &mut ParallelismMonitor,
    check: bool,
    told: &mut ParallelismMonitor,
    outcome: Option<bool>,
    reset: bool,
    i: int,
)
    requires
        call_ensures(ParallelismMonitor::new, (workers,), monitor),
        *old(first) == monitor,
        call_ensures(ParallelismMonitor::on_tick, (first,), at_once),
        *old(heard) == monitor,
        call_ensures(ParallelismMonitor::on_worker_activated, (heard, worker), ()),
        *old(ticked) == *final(heard),
        call_ensures(ParallelismMonitor::on_tick, (ticked,), check),
        *old(told) == *final(ticked),
        call_ensures(ParallelismMonitor::on_checked, (told, outcome), reset),
    ensures
        ({
            let streams = worker.worker_type == WorkerType::ComputeNode && (
            worker.property matches Some(p) && p.is_streaming);
            &&& !at_once
            &&& !streams ==> !check
            &&& streams && (forall|j: int|
                0 <= j < workers@.len() ==> (#[trigger] workers@[j]).id != worker.id) ==> check
            &&& streams && 0 <= i < workers@.len() && workers@[i].id == worker.id && (forall|j: int|
                i < j < workers@.len() ==> (#[trigger] workers@[j]).id != worker.id) ==> (check
                <==> workers@[i].parallel_units@ != worker.parallel_units@)
            &&& reset <==> outcome is None
            &&& outcome matches Some(go_on) ==> final(told).should_trigger == go_on
            &&& outcome is None ==> final(told).should_trigger == check
        }),
{
    if 0 <= i < workers@.len() {
        lemma_cached_last(workers@, i);
    }
    lemma_cached_none(workers@, worker.id);
    let after = final(heard)@.cache;
    if worker.worker_type == WorkerType::ComputeNode && (worker.property matches Some(p)
        && p.is_streaming) {
        assert(after.dom().contains(worker.id));
    }
}

proof fn lemma_cached_last(workers: Seq<WorkerNode>, i: int)
    requires
        0 <= i < workers.len(),
    ensures
        (forall|j: int| i < j < workers.len() ==> (#[trigger] workers[j]).id != workers[i].id)
            ==> cached(workers).contains_key(workers[i].id) && cached(workers)[workers[i].id]
            == workers[i].parallel_units@,
    decreases workers.len(),
{
    let n = workers.len() - 1;
    if i < n {
        let rest = workers.drop_last();
        assert(rest[i] == workers[i]);
        assert(forall|j: int| i < j < rest.len() ==> #[trigger] rest[j] == workers[j]);
        assert(workers[n] == workers.last());
        lemma_cached_last(rest, i);
    }
}

proof fn lemma_cached_none(workers: Seq<WorkerNode>, id: u32)
    ensures
        (forall|j: int| 0 <= j < workers.len() ==> (#[trigger] workers[j]).id != id) ==> !cached(
            workers,
        ).contains_key(id),
    decreases workers.len(),
{
    if workers.len() > 0 {
        let rest = workers.drop_last();
        assert(forall|j: int| 0 <= j < rest.len() ==> #[trigger] rest[j] == workers[j]);
        assert(workers[workers.len() - 1] == workers.last());
        lemma_cached_none(rest, id);
    }
}

/// A worker that was deleted makes the monitor forget it and no other, and by itself does not make it check.
pub proof fn lemma_deleted_forgotten(
    monitor: &mut ParallelismMonitor,
    worker_id: u32,
    known: bool,
    other: u32,
)
    requires
        call_ensures(ParallelismMonitor::on_worker_deleted, (monitor, worker_id), known),
    ensures
        known <==> old(monitor).worker_cache@.contains_key(worker_id),
        final(monitor).worker_cache@.contains_key(other) <==> old(monitor).worker_cache@.contains_key(
            other,
        ) && other != worker_id,
        final(monitor).should_trigger == old(monitor).should_trigger,
{
    let before = unit_lists(old(monitor).worker_cache@);
    let after = unit_lists(final(monitor).worker_cache@);
    assert(after.contains_key(other) <==> final(monitor).worker_cache@.contains_key(other));
    assert(before.contains_key(other) <==> old(monitor).worker_cache@.contains_key(other));
    assert(before.contains_key(worker_id) <==> old(monitor).worker_cache@.contains_key(worker_id));
}

proof fn lemma_follower_is_target(
    index: Map<u32, Map<u32, DispatcherType>>,
    targets: Set<u32>,
    root: u32,
    x: u32,
)
    requires
        followers(index, targets, root).contains(x),
    ensures
        targets.contains(x),
{
    let path = choose|path: Seq<u32>| #[trigger]
        is_down_path(index, targets, path) && path.first() == root && path.last() == x;
    let n = path.len() - 2;
    assert(down_step(index, targets, path[n], path[n + 1], n == 0));
}

/// A plan for fragments that follow none is kept for each of them, and given to those that follow them: each fragment
/// that is added follows and has the plan of a planned fragment that others follow, and whatever such a fragment
/// leads to and follows is added.
pub proof fn lemma_plan_spread_to_followers<'a>(
    workers: &'a Vec<WorkerNode>,
    tables: &'a Vec<TableFragments>,
    reschedule: &mut BTreeMap<u32, ParallelUnitReschedule>,
    options: RescheduleOptions,
    parallelisms: &mut Option<BTreeMap<u32, TableParallelism>>,
    source_flag: u32,
    ctx: RescheduleContext<'a>,
    f: u32,
    r: u32,
)
    requires
        call_ensures(
            build_reschedule_context,
            (workers, tables, reschedule, options, parallelisms, source_flag),
            Ok::<RescheduleContext<'a>, ScaleError>(ctx),
        ),
        !options.resolve_no_shuffle_upstream,
        forall|x: u32| #[trigger]
            old(reschedule)@.contains_key(x) ==> !ctx.no_shuffle_target_fragment_ids@.contains(x),
    ensures
        workers@.len() > 0,
        old(reschedule)@.contains_key(f) ==> final(reschedule)@.contains_key(f)
            && final(reschedule)@[f]@ == old(reschedule)@[f]@,
        final(reschedule)@.contains_key(f) && !old(reschedule)@.contains_key(f)
            ==> ctx.no_shuffle_target_fragment_ids@.contains(f) && exists|x: u32| #[trigger]
            old(reschedule)@.contains_key(x) && ctx.no_shuffle_source_fragment_ids@.contains(x)
                && final(reschedule)@[f]@ == old(reschedule)@[x]@,
        old(reschedule)@.contains_key(r) && ctx.no_shuffle_source_fragment_ids@.contains(r)
            && ctx.fragment_dispatcher_map@.contains_key(r)
            && ctx.fragment_dispatcher_map@[r]@.contains_key(f)
            && ctx.no_shuffle_target_fragment_ids@.contains(f) ==> final(reschedule)@.contains_key(f),
{
    let plans = plans_of(old(reschedule)@);
    let after = plans_of(final(reschedule)@);
    let index = dispatchers_of(tables@);
    let targets = targets_of(tables@);
    assert(plans.dom() =~= old(reschedule)@.dom());
    let roots = choose|roots: Map<u32, UnitChange>| #[trigger]
        is_rooted(tables@, options.resolve_no_shuffle_upstream, plans, roots) && is_context(
            ctx,
            workers@,
            tables@,
            roots,
            source_flag,
        ) && after == with_followers(tables@, roots);
    assert(roots == plans);
    assert forall|x: u32| #[trigger] plans.contains_key(x) implies !targets.contains(x) by {
        assert(old(reschedule)@.contains_key(x));
    }
    lemma_completed(tables@, plans);
    assert(after.contains_key(f) <==> final(reschedule)@.contains_key(f));
    assert(plans.contains_key(f) <==> old(reschedule)@.contains_key(f));
    if after.contains_key(f) && !plans.contains_key(f) {
        let x = choose|x: u32|
            plans.contains_key(x) && #[trigger] follows(tables@, x, f) && after[f] == plans[x];
        lemma_follower_is_target(index, targets, x, f);
        assert(old(reschedule)@.contains_key(x));
    }
    if old(reschedule)@.contains_key(r) && ctx.no_shuffle_source_fragment_ids@.contains(r)
        && ctx.fragment_dispatcher_map@.contains_key(r)
        && ctx.fragment_dispatcher_map@[r]@.contains_key(f) && targets.contains(f) {
        assert(dispatcher_index(ctx.fragment_dispatcher_map@) == index);
        assert(down_step(index, targets, r, f, true));
        lemma_follow_edge(index, targets, r, r, f);
        assert(follows(tables@, r, f));
        assert(plans.contains_key(r));
    }
}

} // verus!
