//! What workers are sent so that new actors can be built, said of the actors one by one.
use crate::common::collections::{ascending_of, lemma_ascending_exists};
use crate::common::worker::WorkerNode;
use crate::scale::actors::lists_of;
use crate::scale::arrange::nested;
use crate::scale::context::RescheduleContext;
use crate::scale::creation::{all_stops, creation_of, downstream_stops, first_lost, infos_of};
use crate::scale::creation::{plan_creation, running_stops, stops_around, stops_of, worker_of};
use crate::scale::creation::{CreationPlan, Stop};
use crate::scale::model::{ActorStatus, Dispatcher, ScaleError, StreamActor};
use crate::scale::prepare::{actors_in, is_created, is_new};
use std::collections::BTreeMap;
use vstd::prelude::*;

verus! {

broadcast use {vstd::std_specs::btree::group_btree_axioms, vstd::laws_cmp::group_laws_cmp};

spec fn has_stop(stops: Seq<Stop>, stop: Stop) -> bool {
    exists|i: int| 0 <= i < stops.len() && #[trigger] stops[i] == stop
}

proof fn lemma_has_concat(a: Seq<Stop>, b: Seq<Stop>, stop: Stop)
    ensures
        has_stop(a + b, stop) <==> has_stop(a, stop) || has_stop(b, stop),
{
    let s = a + b;
    if has_stop(s, stop) {
        let i = choose|i: int| 0 <= i < s.len() && #[trigger] s[i] == stop;
        if i < a.len() {
            assert(a[i] == stop);
        } else {
            assert(b[i - a.len()] == stop);
        }
    }
    if has_stop(a, stop) {
        let i = choose|i: int| 0 <= i < a.len() && #[trigger] a[i] == stop;
        assert(s[i] == stop);
    }
    if has_stop(b, stop) {
        let i = choose|i: int| 0 <= i < b.len() && #[trigger] b[i] == stop;
        assert(s[a.len() + i] == stop);
    }
}

proof fn lemma_has_push(a: Seq<Stop>, last: Stop, stop: Stop)
    ensures
        has_stop(a.push(last), stop) <==> has_stop(a, stop) || stop == last,
{
    assert(a.push(last) =~= a + seq![last]);
    lemma_has_concat(a, seq![last], stop);
    if stop == last {
        assert(seq![last][0] == stop);
    }
}

proof fn lemma_running(ids: Seq<u32>, to_create: Map<u32, Map<u32, u32>>, stop: Stop)
    ensures
        has_stop(running_stops(ids, to_create), stop) <==> ids.contains(stop.actor_id)
            && stop.new_on is None && !is_created(to_create, stop.actor_id),
    decreases ids.len(),
{
    if ids.len() > 0 {
        let front = ids.drop_last();
        lemma_running(front, to_create, stop);
        lemma_has_push(
            running_stops(front, to_create),
            Stop { actor_id: ids.last(), new_on: None },
            stop,
        );
        assert(ids[ids.len() - 1] == ids.last());
        if ids.contains(stop.actor_id) && stop.actor_id != ids.last() {
            let i = ids.index_of(stop.actor_id);
            assert(front[i] == stop.actor_id);
        }
        if front.contains(stop.actor_id) {
            assert(ids[front.index_of(stop.actor_id)] == stop.actor_id);
        }
    } else {
        assert(!ids.contains(stop.actor_id));
    }
}

/// A dispatcher of the actor sends to the other.
pub open spec fn sends_down(ds: Seq<Dispatcher>, x: u32) -> bool {
    exists|d: int| 0 <= d < ds.len() && (#[trigger] ds[d]).downstream_actor_id@.contains(x)
}

proof fn lemma_downstream(ds: Seq<Dispatcher>, to_create: Map<u32, Map<u32, u32>>, stop: Stop)
    ensures
        has_stop(downstream_stops(ds, to_create), stop) <==> sends_down(ds, stop.actor_id)
            && stop.new_on is None && !is_created(to_create, stop.actor_id),
    decreases ds.len(),
{
    if ds.len() > 0 {
        let front = ds.drop_last();
        let n = ds.len() - 1;
        lemma_downstream(front, to_create, stop);
        lemma_running(ds.last().downstream_actor_id@, to_create, stop);
        lemma_has_concat(
            downstream_stops(front, to_create),
            running_stops(ds.last().downstream_actor_id@, to_create),
            stop,
        );
        assert(ds[n] == ds.last());
        if sends_down(front, stop.actor_id) {
            let d = choose|d: int|
                0 <= d < front.len() && (#[trigger] front[d]).downstream_actor_id@.contains(
                    stop.actor_id,
                );
            assert(ds[d] == front[d]);
        }
        if sends_down(ds, stop.actor_id) {
            let d = choose|d: int|
                0 <= d < ds.len() && (#[trigger] ds[d]).downstream_actor_id@.contains(
                    stop.actor_id,
                );
            if d < n {
                assert(front[d] == ds[d]);
            }
        }
    }
}

/// The stop is one that the new actor calls for: itself on its parallel unit, or an actor beside it that is not
/// new.
spec fn called_for(
    actor: StreamActor,
    unit: u32,
    to_create: Map<u32, Map<u32, u32>>,
    stop: Stop,
) -> bool {
    stop == (Stop { actor_id: actor.actor_id, new_on: Some(unit) }) || stop.new_on is None
        && !is_created(to_create, stop.actor_id) && (actor.upstream_actor_id@.contains(
        stop.actor_id,
    ) || sends_down(actor.dispatcher@, stop.actor_id))
}

proof fn lemma_around(
    actor: StreamActor,
    unit: u32,
    to_create: Map<u32, Map<u32, u32>>,
    stop: Stop,
)
    ensures
        has_stop(stops_around(actor, unit, to_create), stop) <==> called_for(
            actor,
            unit,
            to_create,
            stop,
        ),
{
    let a = running_stops(actor.upstream_actor_id@, to_create);
    let b = downstream_stops(actor.dispatcher@, to_create);
    lemma_running(actor.upstream_actor_id@, to_create, stop);
    lemma_downstream(actor.dispatcher@, to_create, stop);
    lemma_has_concat(a, b, stop);
    lemma_has_push(a + b, Stop { actor_id: actor.actor_id, new_on: Some(unit) }, stop);
}

proof fn lemma_stops_of(
    ids: Seq<u32>,
    units: Map<u32, u32>,
    actors: Map<u32, StreamActor>,
    to_create: Map<u32, Map<u32, u32>>,
    stop: Stop,
)
    ensures
        has_stop(stops_of(ids, units, actors, to_create), stop) <==> exists|i: int|
            0 <= i < ids.len() && called_for(
                actors[#[trigger] ids[i]],
                units[ids[i]],
                to_create,
                stop,
            ),
    decreases ids.len(),
{
    if ids.len() > 0 {
        let front = ids.drop_last();
        let n = ids.len() - 1;
        let last = ids.last();
        lemma_stops_of(front, units, actors, to_create, stop);
        lemma_around(actors[last], units[last], to_create, stop);
        lemma_has_concat(
            stops_of(front, units, actors, to_create),
            stops_around(actors[last], units[last], to_create),
            stop,
        );
        assert(ids[n] == last);
        if exists|i: int|
            0 <= i < front.len() && called_for(
                actors[#[trigger] front[i]],
                units[front[i]],
                to_create,
                stop,
            ) {
            let i = choose|i: int|
                0 <= i < front.len() && called_for(
                    actors[#[trigger] front[i]],
                    units[front[i]],
                    to_create,
                    stop,
                );
            assert(ids[i] == front[i]);
        }
        if exists|i: int|
            0 <= i < ids.len() && called_for(
                actors[#[trigger] ids[i]],
                units[ids[i]],
                to_create,
                stop,
            ) {
            let i = choose|i: int|
                0 <= i < ids.len() && called_for(
                    actors[#[trigger] ids[i]],
                    units[ids[i]],
                    to_create,
                    stop,
                );
            if i < n {
                assert(front[i] == ids[i]);
            }
        }
    }
}

proof fn lemma_all_stops(
    fs: Seq<u32>,
    actors: Map<u32, Map<u32, StreamActor>>,
    to_create: Map<u32, Map<u32, u32>>,
    stop: Stop,
)
    requires
        forall|i: int| 0 <= i < fs.len() ==> to_create[#[trigger] fs[i]].dom().finite(),
    ensures
        has_stop(all_stops(fs, actors, to_create), stop) <==> exists|i: int, a: u32|
            0 <= i < fs.len() && #[trigger] to_create[fs[i]].contains_key(a) && called_for(
                actors[fs[i]][a],
                to_create[fs[i]][a],
                to_create,
                stop,
            ),
    decreases fs.len(),
{
    if fs.len() > 0 {
        let front = fs.drop_last();
        let n = fs.len() - 1;
        let f = fs.last();
        assert(fs[n] == f);
        assert forall|i: int| 0 <= i < front.len() implies to_create[
        #[trigger] front[i]].dom().finite() by {
            assert(front[i] == fs[i]);
        }
        lemma_all_stops(front, actors, to_create, stop);
        lemma_ascending_exists(to_create[f].dom());
        let ids = ascending_of(to_create[f].dom());
        lemma_stops_of(ids, to_create[f], actors[f], to_create, stop);
        lemma_has_concat(
            all_stops(front, actors, to_create),
            stops_of(ids, to_create[f], actors[f], to_create),
            stop,
        );
        if has_stop(all_stops(front, actors, to_create), stop) {
            let (i, a) = choose|i: int, a: u32|
                0 <= i < front.len() && #[trigger] to_create[front[i]].contains_key(a)
                    && called_for(actors[front[i]][a], to_create[front[i]][a], to_create, stop);
            assert(to_create[fs[i]].contains_key(a));
        }
        if has_stop(stops_of(ids, to_create[f], actors[f], to_create), stop) {
            let k = choose|k: int|
                0 <= k < ids.len() && called_for(
                    actors[f][#[trigger] ids[k]],
                    to_create[f][ids[k]],
                    to_create,
                    stop,
                );
            assert(ids.to_set().contains(ids[k]));
            assert(to_create[fs[n]].contains_key(ids[k]));
        }
        if exists|i: int, a: u32|
            0 <= i < fs.len() && #[trigger] to_create[fs[i]].contains_key(a) && called_for(
                actors[fs[i]][a],
                to_create[fs[i]][a],
                to_create,
                stop,
            ) {
            let (i, a) = choose|i: int, a: u32|
                0 <= i < fs.len() && #[trigger] to_create[fs[i]].contains_key(a) && called_for(
                    actors[fs[i]][a],
                    to_create[fs[i]][a],
                    to_create,
                    stop,
                );
            if i < n {
                assert(to_create[front[i]].contains_key(a));
            } else {
                assert(ids.to_set().contains(a));
                let k = ids.index_of(a);
                assert(called_for(actors[f][ids[k]], to_create[f][ids[k]], to_create, stop));
            }
        }
    }
}

proof fn lemma_none_lost(
    stops: Seq<Stop>,
    statuses: Map<u32, ActorStatus>,
    owners: Map<u32, u32>,
    workers: Map<u32, &WorkerNode>,
)
    requires
        first_lost(stops, statuses, owners, workers) is None,
    ensures
        forall|i: int|
            0 <= i < stops.len() ==> worker_of(#[trigger] stops[i], statuses, owners, workers) is Ok,
    decreases stops.len(),
{
    if stops.len() > 0 {
        let rest = stops.skip(1);
        lemma_none_lost(rest, statuses, owners, workers);
        assert forall|i: int| 0 <= i < stops.len() implies worker_of(
            #[trigger] stops[i],
            statuses,
            owners,
            workers,
        ) is Ok by {
            if i > 0 {
                assert(rest[i - 1] == stops[i]);
            }
        }
    }
}

proof fn lemma_creation(
    stops: Seq<Stop>,
    statuses: Map<u32, ActorStatus>,
    owners: Map<u32, u32>,
    workers: Map<u32, &WorkerNode>,
    w: u32,
    a: u32,
)
    ensures
        ({
            let c = creation_of(stops, statuses, owners, workers);
            &&& c.infos.contains_key(a) <==> exists|i: int|
                0 <= i < stops.len() && (#[trigger] stops[i]).actor_id == a
            &&& c.infos.contains_key(a) ==> c.infos[a].0 == a
            &&& c.told.contains(w) <==> exists|i: int|
                0 <= i < stops.len() && worker_of(
                    #[trigger] stops[i],
                    statuses,
                    owners,
                    workers,
                )->Ok_0 == w
            &&& c.builds.contains_key(w) && c.builds[w].contains(a) <==> exists|i: int|
                0 <= i < stops.len() && (#[trigger] stops[i]).actor_id == a
                    && stops[i].new_on is Some && worker_of(
                    stops[i],
                    statuses,
                    owners,
                    workers,
                )->Ok_0 == w
        }),
    decreases stops.len(),
{
    if stops.len() > 0 {
        let front = stops.drop_last();
        let n = stops.len() - 1;
        let last = stops.last();
        lemma_creation(front, statuses, owners, workers, w, a);
        let before = creation_of(front, statuses, owners, workers);
        let now = creation_of(stops, statuses, owners, workers);
        let x = worker_of(last, statuses, owners, workers)->Ok_0;
        assert(stops[n] == last);
        assert forall|i: int| 0 <= i < n implies front[i] == #[trigger] stops[i] by {}
        if before.infos.contains_key(a) {
            let i = choose|i: int| 0 <= i < front.len() && (#[trigger] front[i]).actor_id == a;
            assert(stops[i].actor_id == a);
        }
        if exists|i: int| 0 <= i < stops.len() && (#[trigger] stops[i]).actor_id == a {
            let i = choose|i: int| 0 <= i < stops.len() && (#[trigger] stops[i]).actor_id == a;
            if i < n {
                assert(front[i].actor_id == a);
            }
        }
        if before.told.contains(w) {
            let i = choose|i: int|
                0 <= i < front.len() && worker_of(
                    #[trigger] front[i],
                    statuses,
                    owners,
                    workers,
                )->Ok_0 == w;
            assert(stops[i] == front[i]);
        }
        if exists|i: int|
            0 <= i < stops.len() && worker_of(
                #[trigger] stops[i],
                statuses,
                owners,
                workers,
            )->Ok_0 == w {
            let i = choose|i: int|
                0 <= i < stops.len() && worker_of(
                    #[trigger] stops[i],
                    statuses,
                    owners,
                    workers,
                )->Ok_0 == w;
            if i < n {
                assert(front[i] == stops[i]);
            }
        }
        let list = if before.builds.contains_key(w) {
            before.builds[w]
        } else {
            Seq::empty()
        };
        assert(before.builds.contains_key(w) && before.builds[w].contains(a) <==> list.contains(
            a,
        ));
        if last.new_on is Some && x == w {
            assert(now.builds[w] == list.push(last.actor_id));
            assert(now.builds[w].contains(a) <==> list.contains(a) || a == last.actor_id) by {
                if list.contains(a) {
                    assert(now.builds[w][list.index_of(a)] == a);
                }
                assert(now.builds[w][list.len() as int] == last.actor_id);
            }
        }
        if list.contains(a) {
            let i = choose|i: int|
                0 <= i < front.len() && (#[trigger] front[i]).actor_id == a
                    && front[i].new_on is Some && worker_of(
                    front[i],
                    statuses,
                    owners,
                    workers,
                )->Ok_0 == w;
            assert(stops[i] == front[i]);
        }
        if exists|i: int|
            0 <= i < stops.len() && (#[trigger] stops[i]).actor_id == a && stops[i].new_on is Some
                && worker_of(stops[i], statuses, owners, workers)->Ok_0 == w {
            let i = choose|i: int|
                0 <= i < stops.len() && (#[trigger] stops[i]).actor_id == a
                    && stops[i].new_on is Some && worker_of(
                    stops[i],
                    statuses,
                    owners,
                    workers,
                )->Ok_0 == w;
            if i < n {
                assert(front[i] == stops[i]);
            }
        }
    }
}

/// The new actors carry the ids that they are listed under.
pub open spec fn listed_by_id(
    to_create: Map<u32, BTreeMap<u32, u32>>,
    new_actors: Map<u32, BTreeMap<u32, StreamActor>>,
) -> bool {
    forall|f: u32, a: u32|
        to_create.contains_key(f) && #[trigger] to_create[f]@.contains_key(a)
            ==> new_actors.contains_key(f) && new_actors[f]@[a].actor_id == a
}

/// A new actor is built on the worker that has its parallel unit, and nothing else is built anywhere. That worker
/// is told, and the address of the new actor is sent, and those of all actors that it exchanges rows with.
pub proof fn lemma_built_on_owner(
    ctx: &RescheduleContext,
    to_create: &BTreeMap<u32, BTreeMap<u32, u32>>,
    new_actors: &BTreeMap<u32, BTreeMap<u32, StreamActor>>,
    plan: CreationPlan,
    f: u32,
    a: u32,
    x: u32,
    w: u32,
)
    requires
        call_ensures(
            plan_creation,
            (ctx, to_create, new_actors),
            Ok::<CreationPlan, ScaleError>(plan),
        ),
        listed_by_id(to_create@, new_actors@),
        to_create@.contains_key(f),
        to_create@[f]@.contains_key(a),
    ensures
        ({
            let owner = ctx.parallel_unit_id_to_worker_id@[to_create@[f]@[a]];
            let builds = plan.node_actors_to_create@;
            &&& ctx.parallel_unit_id_to_worker_id@.contains_key(to_create@[f]@[a])
            &&& ctx.worker_nodes@.contains_key(owner)
            &&& builds.contains_key(owner) && builds[owner]@.contains(a)
            &&& plan.broadcast_worker_ids@.contains(owner)
            &&& plan.actor_infos_to_broadcast@.contains_key(a)
            &&& plan.actor_infos_to_broadcast@[a].actor_id == a
            &&& new_actors@[f]@[a].upstream_actor_id@.contains(x) || sends_down(
                new_actors@[f]@[a].dispatcher@,
                x,
            ) ==> plan.actor_infos_to_broadcast@.contains_key(x)
            &&& builds.contains_key(w) && builds[w]@.contains(x) ==> exists|g: u32|
                to_create@.contains_key(g) && #[trigger] to_create@[g]@.contains_key(x)
                    && ctx.parallel_unit_id_to_worker_id@[to_create@[g]@[x]] == w
        }),
{
    let tc = nested(to_create@);
    let actors = actors_in(new_actors@);
    let statuses = ctx.actor_status@;
    let owners = ctx.parallel_unit_id_to_worker_id@;
    let workers = ctx.worker_nodes@;
    assert(tc.dom() =~= to_create@.dom());
    lemma_ascending_exists(tc.dom());
    let fs = ascending_of(tc.dom());
    let stops = all_stops(fs, actors, tc);
    assert forall|i: int| 0 <= i < fs.len() implies tc[#[trigger] fs[i]].dom().finite() by {
        assert(fs.to_set().contains(fs[i]));
        assert(tc.contains_key(fs[i]));
        assert(tc[fs[i]] == to_create@[fs[i]]@);
    }
    lemma_none_lost(stops, statuses, owners, workers);
    let unit = to_create@[f]@[a];
    let own = Stop { actor_id: a, new_on: Some(unit) };
    assert(tc.contains_key(f) && tc[f] == to_create@[f]@);
    assert(new_actors@.contains_key(f));
    assert(actors[f] == new_actors@[f]@);
    assert(fs.to_set().contains(f));
    let k = fs.index_of(f);
    lemma_all_stops(fs, actors, tc, own);
    assert(tc[fs[k]].contains_key(a));
    assert(called_for(actors[fs[k]][a], tc[fs[k]][a], tc, own));
    assert(has_stop(stops, own));
    let i = choose|i: int| 0 <= i < stops.len() && #[trigger] stops[i] == own;
    let owner = owners[unit];
    assert(worker_of(stops[i], statuses, owners, workers) is Ok);
    lemma_creation(stops, statuses, owners, workers, owner, a);
    lemma_creation(stops, statuses, owners, workers, w, x);
    let c = creation_of(stops, statuses, owners, workers);
    assert(c.infos == infos_of(plan.actor_infos_to_broadcast@));
    assert(c.builds == lists_of(plan.node_actors_to_create@));
    assert(c.infos.contains_key(a) && c.infos.contains_key(x) ==> infos_of(
        plan.actor_infos_to_broadcast@,
    ).contains_key(x));
    if new_actors@[f]@[a].upstream_actor_id@.contains(x) || sends_down(
        new_actors@[f]@[a].dispatcher@,
        x,
    ) {
        if is_created(tc, x) {
            let g = choose|g: u32| #[trigger] is_new(tc, g, x);
            assert(to_create@[g]@.contains_key(x));
            assert(tc[g] == to_create@[g]@);
            assert(actors[g] == new_actors@[g]@);
            let other = Stop { actor_id: x, new_on: Some(tc[g][x]) };
            lemma_all_stops(fs, actors, tc, other);
            assert(fs.to_set().contains(g));
            let l = fs.index_of(g);
            assert(tc[fs[l]].contains_key(x));
            assert(called_for(actors[fs[l]][x], tc[fs[l]][x], tc, other));
            assert(has_stop(stops, other));
            let j = choose|j: int| 0 <= j < stops.len() && #[trigger] stops[j] == other;
            assert(stops[j].actor_id == x);
        } else {
            let other = Stop { actor_id: x, new_on: None };
            lemma_all_stops(fs, actors, tc, other);
            assert(called_for(actors[fs[k]][a], tc[fs[k]][a], tc, other));
            assert(has_stop(stops, other));
            let j = choose|j: int| 0 <= j < stops.len() && #[trigger] stops[j] == other;
            assert(stops[j].actor_id == x);
        }
    }
    let builds = plan.node_actors_to_create@;
    assert(lists_of(builds).contains_key(w) <==> builds.contains_key(w));
    assert(lists_of(builds).contains_key(owner) <==> builds.contains_key(owner));
    if builds.contains_key(w) && builds[w]@.contains(x) {
        assert(c.builds[w] == builds[w]@);
        let j = choose|j: int|
            0 <= j < stops.len() && (#[trigger] stops[j]).actor_id == x && stops[j].new_on is Some
                && worker_of(stops[j], statuses, owners, workers)->Ok_0 == w;
        let stop = stops[j];
        assert(has_stop(stops, stop));
        lemma_all_stops(fs, actors, tc, stop);
        let (l, b) = choose|l: int, b: u32|
            0 <= l < fs.len() && #[trigger] tc[fs[l]].contains_key(b) && called_for(
                actors[fs[l]][b],
                tc[fs[l]][b],
                tc,
                stop,
            );
        let g = fs[l];
        assert(fs.to_set().contains(g));
        assert(tc.contains_key(g));
        assert(tc[g] == to_create@[g]@);
        assert(to_create@[g]@.contains_key(b));
        assert(actors[g] == new_actors@[g]@);
        assert(b == x);
        assert(to_create@[g]@.contains_key(x));
    }
}

} // verus!
