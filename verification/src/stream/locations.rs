//! Where the actors of a job run, and what is sent so that they are built.
use crate::common::collections::{ascending_of, map_keys};
use crate::common::worker::{copy_host, endpoint, Endpoint, ParallelUnit, WorkerNode};
use crate::scale::actors::lists_of;
use crate::scale::creation::ActorInfo;
use crate::scale::model::TableFragments;
use std::collections::BTreeMap;
use vstd::prelude::*;

verus! {

broadcast use {
    vstd::std_specs::btree::group_btree_axioms,
    vstd::laws_cmp::group_laws_cmp,
};

/// Where actors run.
#[derive(Debug)]
pub struct Locations {
    pub actor_locations: BTreeMap<u32, ParallelUnit>,
    pub worker_locations: BTreeMap<u32, WorkerNode>,
}

/// Every actor runs on a worker that is known.
pub open spec fn workers_known(
    actors: Map<u32, ParallelUnit>,
    workers: Map<u32, WorkerNode>,
) -> bool {
    forall|a: u32| #[trigger]
        actors.contains_key(a) ==> workers.contains_key(actors[a].worker_node_id)
}

/// An actor and the address of its worker.
pub struct Placed {
    pub actor_id: u32,
    pub host: Option<Endpoint>,
}

impl View for ActorInfo {
    type V = Placed;

    open spec fn view(&self) -> Placed {
        Placed { actor_id: self.actor_id, host: endpoint(self.host) }
    }
}

/// The actors and the addresses of their workers.
pub open spec fn placed_of(
    ids: Seq<u32>,
    actors: Map<u32, ParallelUnit>,
    workers: Map<u32, WorkerNode>,
) -> Seq<Placed> {
    Seq::new(
        ids.len(),
        |i: int|
            Placed {
                actor_id: ids[i],
                host: endpoint(workers[actors[ids[i]].worker_node_id].host),
            },
    )
}

/// The views of actor infos.
pub open spec fn infos(list: Seq<ActorInfo>) -> Seq<Placed> {
    Seq::new(list.len(), |i: int| list[i]@)
}

/// The actors by worker.
pub open spec fn by_worker(ids: Seq<u32>, actors: Map<u32, ParallelUnit>) -> Map<u32, Seq<u32>>
    decreases ids.len(),
{
    if ids.len() == 0 {
        Map::empty()
    } else {
        let m = by_worker(ids.drop_last(), actors);
        let w = actors[ids.last()].worker_node_id;
        m.insert(
            w,
            (if m.contains_key(w) {
                m[w]
            } else {
                Seq::empty()
            }).push(ids.last()),
        )
    }
}

impl Locations {
    /// Appends the actors and the addresses of their workers.
    fn push_actor_infos(&self, res: &mut Vec<ActorInfo>)
        requires
            workers_known(self.actor_locations@, self.worker_locations@),
        ensures
            infos(final(res)@) == infos(old(res)@) + placed_of(
                ascending_of(self.actor_locations@.dom()),
                self.actor_locations@,
                self.worker_locations@,
            ),
    {
        let ids = map_keys(&self.actor_locations);
        let ghost actors = self.actor_locations@;
        let ghost workers = self.worker_locations@;
        let ghost before = infos(res@);
        let mut i: usize = 0;
        assert(infos(res@) =~= before + placed_of(ids@.take(0), actors, workers));
        while i < ids.len()
            invariant
                i <= ids.len(),
                actors == self.actor_locations@,
                workers == self.worker_locations@,
                ids@.to_set() == actors.dom(),
                workers_known(actors, workers),
                infos(res@) == before + placed_of(ids@.take(i as int), actors, workers),
            decreases ids.len() - i,
        {
            let actor_id: u32 = ids[i];
            assert(ids@.to_set().contains(ids@[i as int]));
            assert(actors.contains_key(actor_id));
            let unit = self.actor_locations.get(&actor_id).unwrap();
            let worker = self.worker_locations.get(&unit.worker_node_id).unwrap();
            let host = copy_host(&worker.host);
            let ghost now = infos(res@);
            let info = ActorInfo { actor_id, host };
            let ghost v = info@;
            res.push(info);
            assert(infos(res@) =~= now.push(v));
            i = i + 1;
            assert(infos(res@) =~= before + placed_of(ids@.take(i as int), actors, workers));
        }
        assert(ids@.take(i as int) =~= ids@);
    }

    /// The actors by worker.
    pub fn worker_actors(&self) -> (res: BTreeMap<u32, Vec<u32>>)
        ensures
            lists_of(res@) == by_worker(
                ascending_of(self.actor_locations@.dom()),
                self.actor_locations@,
            ),
    {
        let ids = map_keys(&self.actor_locations);
        let ghost actors = self.actor_locations@;
        let mut res: BTreeMap<u32, Vec<u32>> = BTreeMap::new();
        let mut i: usize = 0;
        assert(ids@.take(0) =~= Seq::<u32>::empty());
        assert(lists_of(res@) =~= Map::<u32, Seq<u32>>::empty());
        while i < ids.len()
            invariant
                i <= ids.len(),
                actors == self.actor_locations@,
                ids@.to_set() == actors.dom(),
                lists_of(res@) == by_worker(ids@.take(i as int), actors),
            decreases ids.len() - i,
        {
            let actor_id: u32 = ids[i];
            assert(ids@.to_set().contains(ids@[i as int]));
            assert(ids@.take(i + 1).drop_last() =~= ids@.take(i as int));
            assert(ids@.take(i + 1).last() == actor_id);
            let worker_id: u32 = self.actor_locations.get(&actor_id).unwrap().worker_node_id;
            let mut list: Vec<u32> = match res.remove(&worker_id) {
                Some(list) => list,
                None => Vec::new(),
            };
            list.push(actor_id);
            res.insert(worker_id, list);
            assert(lists_of(res@) =~= by_worker(ids@.take(i + 1), actors));
            i = i + 1;
        }
        assert(ids@.take(i as int) =~= ids@);
        res
    }
}

/// What is sent so that the actors of a job are built.
#[derive(Debug)]
pub struct BuildPlan {
    /// Where the actors of the job and those around it are, for all workers to know.
    pub actor_infos_to_broadcast: Vec<ActorInfo>,
    /// The actors to build on each worker.
    pub building_worker_actors: BTreeMap<u32, Vec<u32>>,
}

/// Works out what is sent so that the actors of a job are built: every worker learns where the actors of
/// the job and the existing actors around it are, and which actors it has to build.
pub fn build_actors(building_locations: &Locations, existing_locations: &Locations) -> (res: BuildPlan)
    requires
        workers_known(building_locations.actor_locations@, building_locations.worker_locations@),
        workers_known(existing_locations.actor_locations@, existing_locations.worker_locations@),
    ensures
        infos(res.actor_infos_to_broadcast@) == placed_of(
            ascending_of(building_locations.actor_locations@.dom()),
            building_locations.actor_locations@,
            building_locations.worker_locations@,
        ) + placed_of(
            ascending_of(existing_locations.actor_locations@.dom()),
            existing_locations.actor_locations@,
            existing_locations.worker_locations@,
        ),
        lists_of(res.building_worker_actors@) == by_worker(
            ascending_of(building_locations.actor_locations@.dom()),
            building_locations.actor_locations@,
        ),
{
    let mut actor_infos_to_broadcast: Vec<ActorInfo> = Vec::new();
    assert(infos(actor_infos_to_broadcast@) =~= Seq::<Placed>::empty());
    building_locations.push_actor_infos(&mut actor_infos_to_broadcast);
    existing_locations.push_actor_infos(&mut actor_infos_to_broadcast);
    let building_worker_actors = building_locations.worker_actors();
    assert(infos(actor_infos_to_broadcast@) =~= placed_of(
        ascending_of(building_locations.actor_locations@.dom()),
        building_locations.actor_locations@,
        building_locations.worker_locations@,
    ) + placed_of(
        ascending_of(existing_locations.actor_locations@.dom()),
        existing_locations.actor_locations@,
        existing_locations.worker_locations@,
    ));
    BuildPlan { actor_infos_to_broadcast, building_worker_actors }
}

/// The actors of the jobs.
pub open spec fn actors_of_jobs(tables: Seq<TableFragments>) -> Seq<u32>
    decreases tables.len(),
{
    if tables.len() == 0 {
        Seq::empty()
    } else {
        actors_of_jobs(tables.drop_last()) + actors_of_fragments(
            ascending_of(tables.last().fragments@.dom()),
            tables.last(),
        )
    }
}

/// The actors of the given fragments of a job.
pub open spec fn actors_of_fragments(fs: Seq<u32>, table: TableFragments) -> Seq<u32>
    decreases fs.len(),
{
    if fs.len() == 0 {
        Seq::empty()
    } else {
        actors_of_fragments(fs.drop_last(), table) + crate::scale::control::actor_ids(
            table.fragments@[fs.last()].actors@,
        )
    }
}

/// The actors that are dropped with the jobs.
pub fn dropped_actors(tables: &Vec<TableFragments>) -> (res: Vec<u32>)
    ensures
        res@ == actors_of_jobs(tables@),
{
    let mut res: Vec<u32> = Vec::new();
    let mut i: usize = 0;
    assert(tables@.take(0) =~= Seq::<TableFragments>::empty());
    while i < tables.len()
        invariant
            i <= tables.len(),
            res@ == actors_of_jobs(tables@.take(i as int)),
        decreases tables.len() - i,
    {
        let table = &tables[i];
        assert(tables@.take(i + 1).drop_last() =~= tables@.take(i as int));
        assert(tables@.take(i + 1).last() == *table);
        let fs = map_keys(&table.fragments);
        let ghost res0 = res@;
        let mut k: usize = 0;
        assert(fs@.take(0) =~= Seq::<u32>::empty());
        assert(res@ =~= res0 + actors_of_fragments(fs@.take(0), *table));
        while k < fs.len()
            invariant
                k <= fs.len(),
                fs@.to_set() == table.fragments@.dom(),
                res@ == res0 + actors_of_fragments(fs@.take(k as int), *table),
            decreases fs.len() - k,
        {
            assert(fs@.to_set().contains(fs@[k as int]));
            assert(fs@.take(k + 1).drop_last() =~= fs@.take(k as int));
            assert(fs@.take(k + 1).last() == fs@[k as int]);
            let fragment = table.fragments.get(&fs[k]).unwrap();
            let actors = &fragment.actors;
            let ghost res1 = res@;
            let mut a: usize = 0;
            assert(res@ =~= res1 + crate::scale::control::actor_ids(actors@.take(0)));
            while a < actors.len()
                invariant
                    a <= actors.len(),
                    res@ == res1 + crate::scale::control::actor_ids(actors@.take(a as int)),
                decreases actors.len() - a,
            {
                res.push(actors[a].actor_id);
                a = a + 1;
                assert(res@ =~= res1 + crate::scale::control::actor_ids(actors@.take(a as int)));
            }
            assert(actors@.take(a as int) =~= actors@);
            assert(res@ =~= res0 + actors_of_fragments(fs@.take(k + 1), *table));
            k = k + 1;
        }
        assert(fs@.take(k as int) =~= fs@);
        i = i + 1;
    }
    assert(tables@.take(i as int) =~= tables@);
    res
}

} // verus!
