//! What has to be sent to which workers so that the new actors of a reschedule can be built.
use crate::common::collections::{ascending_of, map_keys};
use crate::common::worker::{Endpoint, HostAddress, WorkerNode};
use crate::scale::actors::lists_of;
use crate::scale::arrange::nested;
use crate::scale::context::RescheduleContext;
use crate::scale::model::{ActorStatus, Dispatcher, ScaleError, StreamActor};
use crate::scale::prepare::{actors_in, is_created, is_new};
use std::collections::BTreeMap;
use std::collections::BTreeSet;
use vstd::prelude::*;

verus! {

broadcast use {
    vstd::std_specs::btree::group_btree_axioms,
    vstd::laws_cmp::group_laws_cmp,
};

/// An actor whose address is to be made known: a new one on the given parallel unit, or one that
/// runs already.
#[derive(Clone, Copy, Debug, PartialEq, Eq, Structural)]
pub struct Stop {
    pub actor_id: u32,
    pub new_on: Option<u32>,
}

/// The actors of a list that are not new.
pub open spec fn running_stops(ids: Seq<u32>, to_create: Map<u32, Map<u32, u32>>) -> Seq<Stop>
    decreases ids.len(),
{
    if ids.len() == 0 {
        Seq::empty()
    } else {
        let stops = running_stops(ids.drop_last(), to_create);
        if is_created(to_create, ids.last()) {
            stops
        } else {
            stops.push(Stop { actor_id: ids.last(), new_on: None })
        }
    }
}

/// The downstream actors of the dispatchers that are not new.
pub open spec fn downstream_stops(ds: Seq<Dispatcher>, to_create: Map<u32, Map<u32, u32>>) -> Seq<
    Stop,
>
    decreases ds.len(),
{
    if ds.len() == 0 {
        Seq::empty()
    } else {
        downstream_stops(ds.drop_last(), to_create) + running_stops(
            ds.last().downstream_actor_id@,
            to_create,
        )
    }
}

/// The actors around a new actor, and the new actor itself.
pub open spec fn stops_around(actor: StreamActor, unit: u32, to_create: Map<u32, Map<u32, u32>>) -> Seq<
    Stop,
> {
    (running_stops(actor.upstream_actor_id@, to_create) + downstream_stops(
        actor.dispatcher@,
        to_create,
    )).push(Stop { actor_id: actor.actor_id, new_on: Some(unit) })
}

/// The stops of the given new actors of a fragment.
pub open spec fn stops_of(
    ids: Seq<u32>,
    units: Map<u32, u32>,
    actors: Map<u32, StreamActor>,
    to_create: Map<u32, Map<u32, u32>>,
) -> Seq<Stop>
    decreases ids.len(),
{
    if ids.len() == 0 {
        Seq::empty()
    } else {
        stops_of(ids.drop_last(), units, actors, to_create) + stops_around(
            actors[ids.last()],
            units[ids.last()],
            to_create,
        )
    }
}

/// The stops of the new actors of the given fragments.
pub open spec fn all_stops(
    fs: Seq<u32>,
    actors: Map<u32, Map<u32, StreamActor>>,
    to_create: Map<u32, Map<u32, u32>>,
) -> Seq<Stop>
    decreases fs.len(),
{
    if fs.len() == 0 {
        Seq::empty()
    } else {
        let f = fs.last();
        all_stops(fs.drop_last(), actors, to_create) + stops_of(
            ascending_of(to_create[f].dom()),
            to_create[f],
            actors[f],
            to_create,
        )
    }
}

/// The worker of an actor, or why it has none.
pub open spec fn worker_of(
    stop: Stop,
    statuses: Map<u32, ActorStatus>,
    unit_owner: Map<u32, u32>,
    workers: Map<u32, &WorkerNode>,
) -> Result<u32, ScaleError> {
    match stop.new_on {
        Some(unit) => if unit_owner.contains_key(unit) && workers.contains_key(unit_owner[unit]) {
            Ok(unit_owner[unit])
        } else {
            Err(ScaleError::ParallelUnitWithoutWorker { parallel_unit_id: unit })
        },
        None => if !statuses.contains_key(stop.actor_id) || statuses[stop.actor_id].parallel_unit is None {
            Err(ScaleError::ActorWithoutParallelUnit { actor_id: stop.actor_id })
        } else {
            let worker_id = statuses[stop.actor_id].parallel_unit->Some_0.worker_node_id;
            if workers.contains_key(worker_id) {
                Ok(worker_id)
            } else {
                Err(ScaleError::WorkerOfActorNotFound { worker_id })
            }
        },
    }
}

/// Why the first stop without a worker has none.
pub open spec fn first_lost(
    stops: Seq<Stop>,
    statuses: Map<u32, ActorStatus>,
    unit_owner: Map<u32, u32>,
    workers: Map<u32, &WorkerNode>,
) -> Option<ScaleError>
    decreases stops.len(),
{
    if stops.len() == 0 {
        None
    } else {
        match worker_of(stops[0], statuses, unit_owner, workers) {
            Err(e) => Some(e),
            Ok(_) => first_lost(stops.skip(1), statuses, unit_owner, workers),
        }
    }
}

/// The address of a worker.
pub open spec fn host_of(worker: &WorkerNode) -> Option<Endpoint> {
    match worker.host {
        Some(host) => Some(host@),
        None => None,
    }
}

/// What is to be sent, as plain values.
pub struct Creation {
    /// The actors with their ids and addresses.
    pub infos: Map<u32, (u32, Option<Endpoint>)>,
    /// The actors to build on each worker.
    pub builds: Map<u32, Seq<u32>>,
    /// The workers that are told.
    pub told: Set<u32>,
}

/// What is to be sent for the given stops.
pub open spec fn creation_of(
    stops: Seq<Stop>,
    statuses: Map<u32, ActorStatus>,
    unit_owner: Map<u32, u32>,
    workers: Map<u32, &WorkerNode>,
) -> Creation
    decreases stops.len(),
{
    if stops.len() == 0 {
        Creation { infos: Map::empty(), builds: Map::empty(), told: Set::empty() }
    } else {
        let c = creation_of(stops.drop_last(), statuses, unit_owner, workers);
        let stop = stops.last();
        let w = worker_of(stop, statuses, unit_owner, workers)->Ok_0;
        Creation {
            infos: c.infos.insert(stop.actor_id, (stop.actor_id, host_of(workers[w]))),
            builds: if stop.new_on is Some {
                c.builds.insert(
                    w,
                    (if c.builds.contains_key(w) {
                        c.builds[w]
                    } else {
                        Seq::empty()
                    }).push(stop.actor_id),
                )
            } else {
                c.builds
            },
            told: c.told.insert(w),
        }
    }
}

/// The address of an actor.
#[derive(Debug)]
pub struct ActorInfo {
    pub actor_id: u32,
    pub host: Option<HostAddress>,
}

/// The ids and addresses by actor.
pub open spec fn infos_of(m: Map<u32, ActorInfo>) -> Map<u32, (u32, Option<Endpoint>)> {
    Map::new(
        |a: u32| m.contains_key(a),
        |a: u32|
            (
                m[a].actor_id,
                match m[a].host {
                    Some(host) => Some(host@),
                    None => None,
                },
            ),
    )
}

/// What is to be sent so that new actors can be built.
#[derive(Debug)]
pub struct CreationPlan {
    pub actor_infos_to_broadcast: BTreeMap<u32, ActorInfo>,
    pub node_actors_to_create: BTreeMap<u32, Vec<u32>>,
    pub broadcast_worker_ids: BTreeSet<u32>,
}

impl View for CreationPlan {
    type V = Creation;

    open spec fn view(&self) -> Creation {
        Creation {
            infos: infos_of(self.actor_infos_to_broadcast@),
            builds: lists_of(self.node_actors_to_create@),
            told: self.broadcast_worker_ids@,
        }
    }
}

/// The ids of all new actors.
fn collect_created(to_create: &BTreeMap<u32, BTreeMap<u32, u32>>) -> (res: BTreeSet<u32>)
    ensures
        forall|a: u32| #[trigger] res@.contains(a) <==> is_created(nested(to_create@), a),
{
    let fs = map_keys(to_create);
    let ghost tc = nested(to_create@);
    let mut res: BTreeSet<u32> = BTreeSet::new();
    let mut i: usize = 0;
    while i < fs.len()
        invariant
            i <= fs.len(),
            tc == nested(to_create@),
            fs@.to_set() == to_create@.dom(),
            forall|a: u32| #[trigger] res@.contains(a) ==> is_created(tc, a),
            forall|j: int, a: u32|
                0 <= j < i && #[trigger] is_new(tc, fs@[j], a) ==> res@.contains(a),
        decreases fs.len() - i,
    {
        let f: u32 = fs[i];
        assert(fs@.to_set().contains(fs@[i as int]));
        let created = to_create.get(&f).unwrap();
        let ids = map_keys(created);
        let ghost res0 = res@;
        let mut k: usize = 0;
        while k < ids.len()
            invariant
                k <= ids.len(),
                tc == nested(to_create@),
                to_create@.contains_key(f),
                created == to_create@[f],
                ids@.to_set() == created@.dom(),
                forall|a: u32| #[trigger] res@.contains(a) ==> is_created(tc, a),
                forall|a: u32| res0.contains(a) ==> #[trigger] res@.contains(a),
                forall|j: int| 0 <= j < k ==> res@.contains(#[trigger] ids@[j]),
            decreases ids.len() - k,
        {
            assert(ids@.to_set().contains(ids@[k as int]));
            assert(is_new(tc, f, ids@[k as int]));
            res.insert(ids[k]);
            k = k + 1;
        }
        assert forall|a: u32| #[trigger] is_new(tc, f, a) implies res@.contains(a) by {
            assert(ids@.to_set().contains(a));
            let j = choose|j: int| 0 <= j < ids@.len() && ids@[j] == a;
            assert(res@.contains(ids@[j]));
        }
        i = i + 1;
    }
    assert forall|a: u32| is_created(tc, a) implies #[trigger] res@.contains(a) by {
        let f = choose|f: u32| #[trigger] is_new(tc, f, a);
        assert(fs@.to_set().contains(f));
        let j = choose|j: int| 0 <= j < fs@.len() && fs@[j] == f;
        assert(is_new(tc, fs@[j], a));
    }
    res
}

/// Appends the stops of the actors of a list that are not new.
fn push_running(
    stops: &mut Vec<Stop>,
    ids: &Vec<u32>,
    created: &BTreeSet<u32>,
    Ghost(tc): Ghost<Map<u32, Map<u32, u32>>>,
)
    requires
        forall|a: u32| #[trigger] created@.contains(a) <==> is_created(tc, a),
    ensures
        final(stops)@ == old(stops)@ + running_stops(ids@, tc),
{
    let ghost stops0 = stops@;
    let mut i: usize = 0;
    assert(ids@.take(0) =~= Seq::<u32>::empty());
    assert(stops@ =~= stops0 + running_stops(ids@.take(0), tc));
    while i < ids.len()
        invariant
            i <= ids.len(),
            forall|a: u32| #[trigger] created@.contains(a) <==> is_created(tc, a),
            stops@ == stops0 + running_stops(ids@.take(i as int), tc),
        decreases ids.len() - i,
    {
        let id: u32 = ids[i];
        assert(ids@.take(i + 1).drop_last() =~= ids@.take(i as int));
        assert(ids@.take(i + 1).last() == id);
        if !created.contains(&id) {
            stops.push(Stop { actor_id: id, new_on: None });
        }
        assert(stops@ =~= stops0 + running_stops(ids@.take(i + 1), tc));
        i = i + 1;
    }
    assert(ids@.take(i as int) =~= ids@);
}

/// Appends the stops around a new actor.
fn push_around(
    stops: &mut Vec<Stop>,
    actor: &StreamActor,
    unit: u32,
    created: &BTreeSet<u32>,
    Ghost(tc): Ghost<Map<u32, Map<u32, u32>>>,
)
    requires
        forall|a: u32| #[trigger] created@.contains(a) <==> is_created(tc, a),
    ensures
        final(stops)@ == old(stops)@ + stops_around(*actor, unit, tc),
{
    let ghost stops0 = stops@;
    push_running(stops, &actor.upstream_actor_id, created, Ghost(tc));
    let ghost stops1 = stops@;
    let ds = &actor.dispatcher;
    let mut i: usize = 0;
    assert(ds@.take(0) =~= Seq::<Dispatcher>::empty());
    assert(stops@ =~= stops1 + downstream_stops(ds@.take(0), tc));
    while i < ds.len()
        invariant
            i <= ds.len(),
            forall|a: u32| #[trigger] created@.contains(a) <==> is_created(tc, a),
            stops@ == stops1 + downstream_stops(ds@.take(i as int), tc),
        decreases ds.len() - i,
    {
        assert(ds@.take(i + 1).drop_last() =~= ds@.take(i as int));
        assert(ds@.take(i + 1).last() == ds@[i as int]);
        push_running(stops, &ds[i].downstream_actor_id, created, Ghost(tc));
        assert(stops@ =~= stops1 + downstream_stops(ds@.take(i + 1), tc));
        i = i + 1;
    }
    assert(ds@.take(i as int) =~= ds@);
    stops.push(Stop { actor_id: actor.actor_id, new_on: Some(unit) });
    assert(stops@ =~= stops0 + stops_around(*actor, unit, tc));
}

/// The stops of all new actors.
fn collect_stops(
    to_create: &BTreeMap<u32, BTreeMap<u32, u32>>,
    new_actors: &BTreeMap<u32, BTreeMap<u32, StreamActor>>,
) -> (res: Vec<Stop>)
    requires
        actors_cover(nested(to_create@), actors_in(new_actors@)),
    ensures
        res@ == all_stops(
            ascending_of(nested(to_create@).dom()),
            actors_in(new_actors@),
            nested(to_create@),
        ),
{
    let created = collect_created(to_create);
    let fs = map_keys(to_create);
    let ghost tc = nested(to_create@);
    let ghost actors = actors_in(new_actors@);
    assert(tc.dom() =~= to_create@.dom());
    let mut stops: Vec<Stop> = Vec::new();
    let mut i: usize = 0;
    assert(fs@.take(0) =~= Seq::<u32>::empty());
    while i < fs.len()
        invariant
            i <= fs.len(),
            tc == nested(to_create@),
            actors == actors_in(new_actors@),
            actors_cover(tc, actors),
            fs@.to_set() == to_create@.dom(),
            forall|a: u32| #[trigger] created@.contains(a) <==> is_created(tc, a),
            stops@ == all_stops(fs@.take(i as int), actors, tc),
        decreases fs.len() - i,
    {
        let f: u32 = fs[i];
        assert(fs@.to_set().contains(fs@[i as int]));
        assert(tc.contains_key(f));
        let units = to_create.get(&f).unwrap();
        let own = new_actors.get(&f).unwrap();
        let ids = map_keys(units);
        let ghost stops0 = stops@;
        let mut k: usize = 0;
        assert(ids@.take(0) =~= Seq::<u32>::empty());
        assert(stops@ =~= stops0 + stops_of(ids@.take(0), units@, own@, tc));
        while k < ids.len()
            invariant
                k <= ids.len(),
                tc == nested(to_create@),
                tc.contains_key(f),
                units@ == tc[f],
                own@ == actors[f],
                actors_cover(tc, actors),
                ids@.to_set() == units@.dom(),
                forall|a: u32| #[trigger] created@.contains(a) <==> is_created(tc, a),
                stops@ == stops0 + stops_of(ids@.take(k as int), units@, own@, tc),
            decreases ids.len() - k,
        {
            let a: u32 = ids[k];
            assert(ids@.to_set().contains(ids@[k as int]));
            assert(is_new(tc, f, a));
            assert(ids@.take(k + 1).drop_last() =~= ids@.take(k as int));
            assert(ids@.take(k + 1).last() == a);
            push_around(
                &mut stops,
                own.get(&a).unwrap(),
                *units.get(&a).unwrap(),
                &created,
                Ghost(tc),
            );
            assert(stops@ =~= stops0 + stops_of(ids@.take(k + 1), units@, own@, tc));
            k = k + 1;
        }
        assert(ids@.take(k as int) =~= ids@);
        assert(fs@.take(i + 1).drop_last() =~= fs@.take(i as int));
        assert(fs@.take(i + 1).last() == f);
        i = i + 1;
    }
    assert(fs@.take(i as int) =~= fs@);
    stops
}

/// Every new actor is known.
pub open spec fn actors_cover(
    to_create: Map<u32, Map<u32, u32>>,
    actors: Map<u32, Map<u32, StreamActor>>,
) -> bool {
    forall|f: u32| #[trigger]
        to_create.contains_key(f) ==> actors.contains_key(f) && to_create[f].dom().subset_of(
            actors[f].dom(),
        )
}

impl<'a> RescheduleContext<'a> {
    /// The worker that has a parallel unit.
    pub fn parallel_unit_id_to_worker(&self, parallel_unit_id: u32) -> (res: Result<
        &'a WorkerNode,
        ScaleError,
    >)
        ensures
            match res {
                Ok(worker) => self.parallel_unit_id_to_worker_id@.contains_key(parallel_unit_id)
                    && self.worker_nodes@.contains_key(
                    self.parallel_unit_id_to_worker_id@[parallel_unit_id],
                ) && worker == self.worker_nodes@[self.parallel_unit_id_to_worker_id@[parallel_unit_id]],
                Err(e) => !(self.parallel_unit_id_to_worker_id@.contains_key(parallel_unit_id)
                    && self.worker_nodes@.contains_key(
                    self.parallel_unit_id_to_worker_id@[parallel_unit_id],
                )) && e == (ScaleError::ParallelUnitWithoutWorker { parallel_unit_id }),
            },
    {
        match self.parallel_unit_id_to_worker_id.get(&parallel_unit_id) {
            Some(worker_id) => match self.worker_nodes.get(worker_id) {
                Some(worker) => Ok(*worker),
                None => Err(ScaleError::ParallelUnitWithoutWorker { parallel_unit_id }),
            },
            None => Err(ScaleError::ParallelUnitWithoutWorker { parallel_unit_id }),
        }
    }

    /// The worker of an actor, with its id.
    fn find_worker_of(&self, stop: Stop) -> (res: Result<(u32, &'a WorkerNode), ScaleError>)
        ensures
            match res {
                Ok((worker_id, worker)) => worker_of(
                    stop,
                    self.actor_status@,
                    self.parallel_unit_id_to_worker_id@,
                    self.worker_nodes@,
                ) == Ok::<u32, ScaleError>(worker_id) && worker == self.worker_nodes@[worker_id],
                Err(e) => worker_of(
                    stop,
                    self.actor_status@,
                    self.parallel_unit_id_to_worker_id@,
                    self.worker_nodes@,
                ) == Err::<u32, ScaleError>(e),
            },
    {
        match stop.new_on {
            Some(unit) => match self.parallel_unit_id_to_worker(unit) {
                Ok(worker) => Ok((*self.parallel_unit_id_to_worker_id.get(&unit).unwrap(), worker)),
                Err(e) => Err(e),
            },
            None => match self.actor_status.get(&stop.actor_id) {
                Some(status) => match status.parallel_unit {
                    Some(unit) => match self.worker_nodes.get(&unit.worker_node_id) {
                        Some(worker) => Ok((unit.worker_node_id, *worker)),
                        None => Err(
                            ScaleError::WorkerOfActorNotFound { worker_id: unit.worker_node_id },
                        ),
                    },
                    None => Err(ScaleError::ActorWithoutParallelUnit { actor_id: stop.actor_id }),
                },
                None => Err(ScaleError::ActorWithoutParallelUnit { actor_id: stop.actor_id }),
            },
        }
    }
}

/// Works out what has to be sent so that the new actors can be built: the addresses of the new
/// actors and of all that they exchange rows with, the actors to build on each worker, and the
/// workers to tell.
pub fn plan_creation(
    ctx: &RescheduleContext,
    to_create: &BTreeMap<u32, BTreeMap<u32, u32>>,
    new_actors: &BTreeMap<u32, BTreeMap<u32, StreamActor>>,
) -> (res: Result<CreationPlan, ScaleError>)
    requires
        actors_cover(nested(to_create@), actors_in(new_actors@)),
    ensures
        ({
            let stops = all_stops(
                ascending_of(nested(to_create@).dom()),
                actors_in(new_actors@),
                nested(to_create@),
            );
            let lost = first_lost(
                stops,
                ctx.actor_status@,
                ctx.parallel_unit_id_to_worker_id@,
                ctx.worker_nodes@,
            );
            match res {
                Ok(plan) => lost is None && plan@ == creation_of(
                    stops,
                    ctx.actor_status@,
                    ctx.parallel_unit_id_to_worker_id@,
                    ctx.worker_nodes@,
                ),
                Err(e) => lost == Some(e),
            }
        }),
{
    let stops = collect_stops(to_create, new_actors);
    let ghost statuses = ctx.actor_status@;
    let ghost owners = ctx.parallel_unit_id_to_worker_id@;
    let ghost workers = ctx.worker_nodes@;
    let mut plan = CreationPlan {
        actor_infos_to_broadcast: BTreeMap::new(),
        node_actors_to_create: BTreeMap::new(),
        broadcast_worker_ids: BTreeSet::new(),
    };
    let mut i: usize = 0;
    proof {
        assert(stops@.take(0) =~= Seq::<Stop>::empty());
        assert(stops@.skip(0) =~= stops@);
        assert(plan@.infos =~= Map::<u32, (u32, Option<Endpoint>)>::empty());
        assert(plan@.builds =~= Map::<u32, Seq<u32>>::empty());
        assert(plan@.told =~= Set::<u32>::empty());
    }
    while i < stops.len()
        invariant
            i <= stops.len(),
            statuses == ctx.actor_status@,
            owners == ctx.parallel_unit_id_to_worker_id@,
            workers == ctx.worker_nodes@,
            stops@ == all_stops(
                ascending_of(nested(to_create@).dom()),
                actors_in(new_actors@),
                nested(to_create@),
            ),
            first_lost(stops@, statuses, owners, workers) == first_lost(
                stops@.skip(i as int),
                statuses,
                owners,
                workers,
            ),
            plan@ == creation_of(stops@.take(i as int), statuses, owners, workers),
        decreases stops.len() - i,
    {
        let stop = stops[i];
        assert(stops@.skip(i as int)[0] == stop);
        assert(stops@.skip(i as int).skip(1) =~= stops@.skip(i + 1));
        assert(stops@.take(i + 1).drop_last() =~= stops@.take(i as int));
        assert(stops@.take(i + 1).last() == stop);
        let (worker_id, worker) = match ctx.find_worker_of(stop) {
            Ok(found) => found,
            Err(e) => {
                return Err(e);
            },
        };
        let ghost before = plan@;
        let host = match &worker.host {
            Some(host) => Some(host.clone()),
            None => None,
        };
        let ghost endpoint = host_of(worker);
        plan.actor_infos_to_broadcast.insert(
            stop.actor_id,
            ActorInfo { actor_id: stop.actor_id, host },
        );
        if stop.new_on.is_some() {
            let mut list: Vec<u32> = match plan.node_actors_to_create.remove(&worker_id) {
                Some(list) => list,
                None => Vec::new(),
            };
            list.push(stop.actor_id);
            plan.node_actors_to_create.insert(worker_id, list);
        }
        plan.broadcast_worker_ids.insert(worker_id);
        proof {
            let after = creation_of(stops@.take(i + 1), statuses, owners, workers);
            assert(plan@.infos =~= before.infos.insert(stop.actor_id, (stop.actor_id, endpoint)));
            assert(plan@.builds =~= after.builds);
            assert(plan@.told =~= after.told);
        }
        i = i + 1;
    }
    assert(stops@.skip(i as int) =~= Seq::<Stop>::empty());
    assert(stops@.take(i as int) =~= stops@);
    Ok(plan)
}

} // verus!
