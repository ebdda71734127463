//! When jobs are rescheduled without being asked, and what follows a reschedule.
use crate::common::collections::{ascending_of, map_keys};
use crate::common::worker::{copy_units, ParallelUnit, WorkerNode, WorkerType};
use crate::scale::assemble::Reschedule;
use crate::scale::context::RescheduleContext;
use crate::scale::model::{CustomActorInfo, ParallelUnitReschedule, ScaleError, TableFragments};
use crate::scale::model::{TableParallelism, TableResizePolicy, TableState, UnitChange};
use crate::scale::no_shuffle::plans_of;
use crate::scale::resize::{all_one_downstream, generate_table_resize_plan, table_resize_plan};
use crate::scale::resize::tables_resizable;
use crate::scale::tables::tables_valid;
use crate::scale::units::{all_units, slots_countable, units_of_workers};
use std::collections::BTreeMap;
use std::collections::BTreeSet;
use vstd::prelude::*;

verus! {

broadcast use {
    vstd::std_specs::btree::group_btree_axioms,
    vstd::laws_cmp::group_laws_cmp,
};

/// The ids of the given actors.
pub open spec fn actor_ids(actors: Seq<CustomActorInfo>) -> Seq<u32> {
    Seq::new(actors.len(), |i: int| actors[i].actor_id)
}

/// The actors between which the splits of a source move.
#[derive(Debug)]
pub struct SplitMigration {
    pub fragment_id: u32,
    pub prev_actor_ids: Vec<u32>,
    pub curr_actor_ids: Vec<u32>,
}

/// The fragments among the given ones that read a source with splits.
pub open spec fn migrating(fs: Seq<u32>, sources: Set<u32>) -> Seq<u32>
    decreases fs.len(),
{
    if fs.len() == 0 {
        Seq::empty()
    } else if sources.contains(fs.last()) {
        migrating(fs.drop_last(), sources).push(fs.last())
    } else {
        migrating(fs.drop_last(), sources)
    }
}

/// The splits that have to move, for each rescheduled fragment that reads a source: from the actors
/// that it had to those that it has after the reschedule.
pub fn split_migrations(
    reschedules: &BTreeMap<u32, ParallelUnitReschedule>,
    ctx: &RescheduleContext,
    after: &BTreeMap<u32, BTreeMap<u32, u32>>,
) -> (res: Vec<SplitMigration>)
    requires
        forall|f: u32| #[trigger]
            reschedules@.contains_key(f) ==> ctx.fragment_map@.contains_key(f)
                && after@.contains_key(f),
    ensures
        ({
            let fs = migrating(
                ascending_of(reschedules@.dom()),
                ctx.stream_source_fragment_ids@,
            );
            &&& res@.len() == fs.len()
            &&& forall|i: int|
                0 <= i < fs.len() ==> (#[trigger] res@[i]).fragment_id == fs[i]
                    && res@[i].prev_actor_ids@ == actor_ids(ctx.fragment_map@[fs[i]].actors@)
                    && res@[i].curr_actor_ids@ == ascending_of(after@[fs[i]]@.dom())
        }),
{
    let ids = map_keys(reschedules);
    let ghost sources = ctx.stream_source_fragment_ids@;
    let mut res: Vec<SplitMigration> = Vec::new();
    let mut i: usize = 0;
    assert(ids@.take(0) =~= Seq::<u32>::empty());
    while i < ids.len()
        invariant
            i <= ids.len(),
            ids@.to_set() == reschedules@.dom(),
            sources == ctx.stream_source_fragment_ids@,
            forall|f: u32| #[trigger]
                reschedules@.contains_key(f) ==> ctx.fragment_map@.contains_key(f)
                    && after@.contains_key(f),
            res@.len() == migrating(ids@.take(i as int), sources).len(),
            forall|j: int|
                0 <= j < res@.len() ==> (#[trigger] res@[j]).fragment_id == migrating(
                    ids@.take(i as int),
                    sources,
                )[j] && res@[j].prev_actor_ids@ == actor_ids(
                    ctx.fragment_map@[res@[j].fragment_id].actors@,
                ) && res@[j].curr_actor_ids@ == ascending_of(after@[res@[j].fragment_id]@.dom()),
        decreases ids.len() - i,
    {
        let f: u32 = ids[i];
        assert(ids@.to_set().contains(ids@[i as int]));
        assert(reschedules@.contains_key(f));
        assert(ids@.take(i + 1).drop_last() =~= ids@.take(i as int));
        assert(ids@.take(i + 1).last() == f);
        if ctx.stream_source_fragment_ids.contains(&f) {
            let fragment = *ctx.fragment_map.get(&f).unwrap();
            let mut prev_actor_ids: Vec<u32> = Vec::new();
            let mut k: usize = 0;
            while k < fragment.actors.len()
                invariant
                    k <= fragment.actors.len(),
                    prev_actor_ids@ == actor_ids(fragment.actors@.take(k as int)),
                decreases fragment.actors.len() - k,
            {
                prev_actor_ids.push(fragment.actors[k].actor_id);
                k = k + 1;
                assert(prev_actor_ids@ =~= actor_ids(fragment.actors@.take(k as int)));
            }
            assert(fragment.actors@.take(k as int) =~= fragment.actors@);
            let curr_actor_ids = map_keys(after.get(&f).unwrap());
            res.push(SplitMigration { fragment_id: f, prev_actor_ids, curr_actor_ids });
        }
        i = i + 1;
    }
    assert(ids@.take(i as int) =~= ids@);
    res
}

/// The fragment sends to a rescheduled fragment, or merges its rows.
pub open spec fn is_neighbour(reschedules: Map<u32, Reschedule>, x: u32) -> bool {
    exists|f: u32| #[trigger] reschedules.contains_key(f) && touches(reschedules[f], x)
}

/// The fragment is upstream or downstream of the reschedule.
pub open spec fn touches(r: Reschedule, x: u32) -> bool {
    ||| exists|i: int|
        0 <= i < r.upstream_fragment_dispatcher_ids@.len() && (
        #[trigger] r.upstream_fragment_dispatcher_ids@[i]).0 == x
    ||| r.downstream_fragment_ids@.contains(x)
}

/// Enters the fragments that are upstream or downstream of a reschedule.
fn add_neighbours(res: &mut BTreeSet<u32>, r: &Reschedule)
    ensures
        forall|x: u32| #[trigger]
            final(res)@.contains(x) <==> old(res)@.contains(x) || touches(*r, x),
{
    let ups = &r.upstream_fragment_dispatcher_ids;
    let downs = &r.downstream_fragment_ids;
    let ghost res0 = res@;
    let mut i: usize = 0;
    while i < ups.len()
        invariant
            i <= ups.len(),
            ups == r.upstream_fragment_dispatcher_ids,
            forall|x: u32| #[trigger]
                res@.contains(x) <==> res0.contains(x) || exists|j: int|
                    0 <= j < i && (#[trigger] ups@[j]).0 == x,
        decreases ups.len() - i,
    {
        let (up, _) = ups[i];
        assert(ups@[i as int].0 == up);
        res.insert(up);
        i = i + 1;
    }
    let ghost res1 = res@;
    let mut k: usize = 0;
    while k < downs.len()
        invariant
            k <= downs.len(),
            forall|x: u32| #[trigger]
                res@.contains(x) <==> res1.contains(x) || exists|j: int|
                    0 <= j < k && #[trigger] downs@[j] == x,
        decreases downs.len() - k,
    {
        assert(downs@[k as int] == downs[k as int]);
        res.insert(downs[k]);
        k = k + 1;
    }
    assert forall|x: u32| #[trigger] res@.contains(x) <==> res0.contains(x) || touches(*r, x) by {
        if downs@.contains(x) {
            let j = choose|j: int| 0 <= j < downs@.len() && downs@[j] == x;
            assert(downs@[j] == x);
        }
    }
}

/// The fragments around the rescheduled ones, whose running actors a reschedule has to know.
pub fn up_down_stream_fragments(reschedules: &BTreeMap<u32, Reschedule>) -> (res: BTreeSet<u32>)
    ensures
        forall|x: u32| #[trigger] res@.contains(x) <==> is_neighbour(reschedules@, x),
{
    let ids = map_keys(reschedules);
    let mut res: BTreeSet<u32> = BTreeSet::new();
    let mut i: usize = 0;
    while i < ids.len()
        invariant
            i <= ids.len(),
            ids@.to_set() == reschedules@.dom(),
            forall|x: u32| #[trigger]
                res@.contains(x) <==> exists|j: int|
                    0 <= j < i && touches(reschedules@[#[trigger] ids@[j]], x),
        decreases ids.len() - i,
    {
        assert(ids@.to_set().contains(ids@[i as int]));
        let ghost res0 = res@;
        add_neighbours(&mut res, reschedules.get(&ids[i]).unwrap());
        assert forall|x: u32| #[trigger] res@.contains(x) <==> exists|j: int|
            0 <= j < i + 1 && touches(reschedules@[#[trigger] ids@[j]], x) by {
            if res0.contains(x) {
                let j = choose|j: int| 0 <= j < i && touches(reschedules@[#[trigger] ids@[j]], x);
                assert(touches(reschedules@[ids@[j]], x));
            }
            if touches(reschedules@[ids@[i as int]], x) {
                assert(res@.contains(x));
            }
        }
        i = i + 1;
    }
    assert forall|x: u32| #[trigger] res@.contains(x) <==> is_neighbour(reschedules@, x) by {
        if res@.contains(x) {
            let j = choose|j: int|
                0 <= j < ids@.len() && touches(reschedules@[#[trigger] ids@[j]], x);
            assert(ids@.to_set().contains(ids@[j]));
            assert(reschedules@.contains_key(ids@[j]));
        }
        if is_neighbour(reschedules@, x) {
            let f = choose|f: u32| #[trigger] reschedules@.contains_key(f) && touches(
                reschedules@[f],
                x,
            );
            assert(ids@.to_set().contains(f));
            let j = choose|j: int| 0 <= j < ids@.len() && ids@[j] == f;
            assert(touches(reschedules@[ids@[j]], x));
        }
    }
    res
}

/// The fragment has splits that the reschedule moved.
pub open spec fn moves_splits(reschedules: Map<u32, Reschedule>, f: u32) -> bool {
    reschedules.contains_key(f) && !reschedules[f].actor_splits@.dom().is_empty()
}

/// The actor went with a reschedule that moved splits.
pub open spec fn drops_actor(reschedules: Map<u32, Reschedule>, a: u32) -> bool {
    exists|f: u32| #[trigger]
        moves_splits(reschedules, f) && reschedules[f].removed_actors@.contains(a)
}

/// What the sources have to be told after the reschedules were applied: the fragments whose splits
/// moved, and the actors of theirs that are gone.
pub fn source_changes(reschedules: &BTreeMap<u32, Reschedule>) -> (res: (
    BTreeSet<u32>,
    BTreeSet<u32>,
))
    ensures
        forall|f: u32| #[trigger] res.0@.contains(f) <==> moves_splits(reschedules@, f),
        forall|a: u32| #[trigger] res.1@.contains(a) <==> drops_actor(reschedules@, a),
{
    let ids = map_keys(reschedules);
    let mut moved: BTreeSet<u32> = BTreeSet::new();
    let mut dropped: BTreeSet<u32> = BTreeSet::new();
    let mut i: usize = 0;
    while i < ids.len()
        invariant
            i <= ids.len(),
            ids@.to_set() == reschedules@.dom(),
            forall|f: u32| #[trigger] moved@.contains(f) ==> moves_splits(reschedules@, f),
            forall|j: int|
                0 <= j < i && moves_splits(reschedules@, #[trigger] ids@[j]) ==> moved@.contains(
                    ids@[j],
                ),
            forall|a: u32| #[trigger] dropped@.contains(a) ==> drops_actor(reschedules@, a),
            forall|j: int, a: u32|
                0 <= j < i && moves_splits(reschedules@, ids@[j])
                    && #[trigger] reschedules@[ids@[j]].removed_actors@.contains(a)
                    ==> dropped@.contains(a),
        decreases ids.len() - i,
    {
        let f: u32 = ids[i];
        assert(ids@.to_set().contains(ids@[i as int]));
        let r = reschedules.get(&f).unwrap();
        let keys = map_keys(&r.actor_splits);
        assert(r.actor_splits@.dom().is_empty() <==> keys@.len() == 0) by {
            if keys@.len() > 0 {
                assert(keys@.to_set().contains(keys@[0]));
            } else {
                assert(keys@.to_set() =~= Set::<u32>::empty());
            }
        }
        if keys.len() > 0 {
            moved.insert(f);
            let ghost dropped0 = dropped@;
            crate::scale::units::add_all(&mut dropped, &r.removed_actors);
            assert(moves_splits(reschedules@, f));
        }
        i = i + 1;
    }
    assert forall|f: u32| moves_splits(reschedules@, f) implies #[trigger] moved@.contains(f) by {
        assert(ids@.to_set().contains(f));
        let j = choose|j: int| 0 <= j < ids@.len() && ids@[j] == f;
        assert(moved@.contains(ids@[j]));
    }
    assert forall|a: u32| drops_actor(reschedules@, a) implies #[trigger] dropped@.contains(a) by {
        let f = choose|f: u32| #[trigger]
            moves_splits(reschedules@, f) && reschedules@[f].removed_actors@.contains(a);
        assert(ids@.to_set().contains(f));
        let j = choose|j: int| 0 <= j < ids@.len() && ids@[j] == f;
        assert(reschedules@[ids@[j]].removed_actors@.contains(a));
    }
    (moved, dropped)
}

/// The parallelism of each job that is created.
pub open spec fn created_parallelisms_of(tables: Seq<TableFragments>) -> Map<u32, TableParallelism>
    decreases tables.len(),
{
    if tables.len() == 0 {
        Map::empty()
    } else {
        let m = created_parallelisms_of(tables.drop_last());
        if tables.last().state == TableState::Created {
            m.insert(tables.last().table_id, tables.last().assigned_parallelism)
        } else {
            m
        }
    }
}

/// The parallelism of each job that is created.
pub fn created_parallelisms(tables: &Vec<TableFragments>) -> (res: BTreeMap<u32, TableParallelism>)
    ensures
        res@ == created_parallelisms_of(tables@),
{
    let mut res: BTreeMap<u32, TableParallelism> = BTreeMap::new();
    let mut i: usize = 0;
    assert(tables@.take(0) =~= Seq::<TableFragments>::empty());
    while i < tables.len()
        invariant
            i <= tables.len(),
            res@ == created_parallelisms_of(tables@.take(i as int)),
        decreases tables.len() - i,
    {
        assert(tables@.take(i + 1).drop_last() =~= tables@.take(i as int));
        if tables[i].state == TableState::Created {
            res.insert(tables[i].table_id, tables[i].assigned_parallelism);
        }
        i = i + 1;
    }
    assert(tables@.take(i as int) =~= tables@);
    res
}

/// The workers that new actors may be placed on.
pub open spec fn schedulable_workers_of(workers: Seq<WorkerNode>) -> Set<u32>
    decreases workers.len(),
{
    if workers.len() == 0 {
        Set::empty()
    } else {
        let s = schedulable_workers_of(workers.drop_last());
        if crate::common::worker::is_unschedulable(workers.last().property) {
            s
        } else {
            s.insert(workers.last().id)
        }
    }
}

/// The workers that new actors may be placed on.
pub fn schedulable_workers(workers: &Vec<WorkerNode>) -> (res: BTreeSet<u32>)
    ensures
        res@ == schedulable_workers_of(workers@),
{
    let mut res: BTreeSet<u32> = BTreeSet::new();
    let mut i: usize = 0;
    assert(workers@.take(0) =~= Seq::<WorkerNode>::empty());
    while i < workers.len()
        invariant
            i <= workers.len(),
            res@ == schedulable_workers_of(workers@.take(i as int)),
        decreases workers.len() - i,
    {
        assert(workers@.take(i + 1).drop_last() =~= workers@.take(i as int));
        if !workers[i].unschedulable() {
            res.insert(workers[i].id);
        }
        i = i + 1;
    }
    assert(workers@.take(i as int) =~= workers@);
    res
}

/// The size of the next batch.
pub open spec fn batch_len(left: nat, size: nat) -> int {
    if size < left {
        size as int
    } else {
        left as int
    }
}

/// The first plan that changes something, when the jobs are resized batch by batch.
pub open spec fn first_batch_plan(
    ids: Seq<u32>,
    size: nat,
    worker_ids: Set<u32>,
    parallelisms: Map<u32, TableParallelism>,
    workers: Seq<WorkerNode>,
    tables: Seq<TableFragments>,
) -> Result<Option<Map<u32, UnitChange>>, ScaleError>
    decreases ids.len(),
{
    let n = batch_len(ids.len(), size);
    if n == 0 {
        Ok(None)
    } else {
        match table_resize_plan(
            worker_ids,
            parallelisms.restrict(ids.take(n).to_set()),
            workers,
            tables,
        ) {
            Err(e) => Err(e),
            Ok(plan) => if plan.dom().is_empty() {
                first_batch_plan(ids.skip(n), size, worker_ids, parallelisms, workers, tables)
            } else {
                Ok(Some(plan))
            },
        }
    }
}

/// What to do at a check of the parallelism of all jobs.
#[derive(Debug)]
pub enum ControlDecision {
    /// Nothing now; look again at the next tick.
    Retry,
    /// Nothing, until the workers change.
    Rest,
    /// Carry the reschedule out.
    Reschedule(BTreeMap<u32, ParallelUnitReschedule>),
}

/// The parallelisms of one batch.
fn take_batch(
    ids: &Vec<u32>,
    from: usize,
    to: usize,
    parallelisms: &BTreeMap<u32, TableParallelism>,
) -> (res: BTreeMap<u32, TableParallelism>)
    requires
        from <= to <= ids.len(),
        ids@.to_set() == parallelisms@.dom(),
    ensures
        res@ == parallelisms@.restrict(ids@.subrange(from as int, to as int).to_set()),
{
    let mut res: BTreeMap<u32, TableParallelism> = BTreeMap::new();
    let mut i: usize = from;
    assert(res@ =~= parallelisms@.restrict(ids@.subrange(from as int, from as int).to_set()));
    while i < to
        invariant
            from <= i <= to <= ids.len(),
            ids@.to_set() == parallelisms@.dom(),
            res@ == parallelisms@.restrict(ids@.subrange(from as int, i as int).to_set()),
        decreases to - i,
    {
        let t: u32 = ids[i];
        assert(ids@.to_set().contains(ids@[i as int]));
        res.insert(t, *parallelisms.get(&t).unwrap());
        proof {
            assert(ids@.subrange(from as int, i + 1) =~= ids@.subrange(from as int, i as int).push(
                t,
            ));
            crate::common::collections::lemma_to_set_push(ids@.subrange(from as int, i as int), t);
            assert(res@ =~= parallelisms@.restrict(ids@.subrange(from as int, i + 1).to_set()));
        }
        i = i + 1;
    }
    res
}

/// Decides what to do at a check of the parallelism of all jobs. While jobs are being created in the
/// background, nothing is done. Otherwise the jobs are resized batch by batch, to the parallelism
/// that each is assigned, on the workers that are schedulable; the first plan that changes something
/// is carried out. A batch size of zero stands for a single batch.
pub fn decide_parallelism_control(
    background_jobs: &Vec<u32>,
    workers: &Vec<WorkerNode>,
    tables: &Vec<TableFragments>,
    parallelisms: &BTreeMap<u32, TableParallelism>,
    batch_size: usize,
) -> (res: Result<ControlDecision, ScaleError>)
    requires
        tables_valid(tables@),
        all_one_downstream(tables@),
        tables_resizable(tables@, parallelisms@),
        slots_countable(units_of_workers(workers@, schedulable_workers_of(workers@))),
        all_units(units_of_workers(workers@, schedulable_workers_of(workers@))).len() <= u32::MAX,
    ensures
        if background_jobs@.len() > 0 {
            res matches Ok(decision) && decision is Retry
        } else {
            let ids = ascending_of(parallelisms@.dom());
            let size = if batch_size == 0 {
                ids.len()
            } else {
                batch_size as nat
            };
            match first_batch_plan(
                ids,
                size,
                schedulable_workers_of(workers@),
                parallelisms@,
                workers@,
                tables@,
            ) {
                Err(e) => res matches Err(err) && err == e,
                Ok(None) => res matches Ok(decision) && decision is Rest,
                Ok(Some(plan)) => res matches Ok(ControlDecision::Reschedule(p)) && plans_of(p@)
                    == plan,
            }
        },
{
    if background_jobs.len() > 0 {
        return Ok(ControlDecision::Retry);
    }
    let worker_ids = schedulable_workers(workers);
    let ids = map_keys(parallelisms);
    let size: usize = if batch_size == 0 {
        ids.len()
    } else {
        batch_size
    };
    let ghost want = first_batch_plan(
        ids@,
        size as nat,
        worker_ids@,
        parallelisms@,
        workers@,
        tables@,
    );
    let mut from: usize = 0;
    assert(ids@.skip(0) =~= ids@);
    while from < ids.len()
        invariant
            from <= ids.len(),
            ids@ == ascending_of(parallelisms@.dom()),
            ids@.to_set() == parallelisms@.dom(),
            ids.len() > 0 ==> size > 0,
            size == (if batch_size == 0 {
                ids.len()
            } else {
                batch_size
            }),
            background_jobs@.len() == 0,
            worker_ids@ == schedulable_workers_of(workers@),
            tables_valid(tables@),
            all_one_downstream(tables@),
            tables_resizable(tables@, parallelisms@),
            slots_countable(units_of_workers(workers@, worker_ids@)),
            all_units(units_of_workers(workers@, worker_ids@)).len() <= u32::MAX,
            want == first_batch_plan(
                ids@,
                size as nat,
                worker_ids@,
                parallelisms@,
                workers@,
                tables@,
            ),
            want == first_batch_plan(
                ids@.skip(from as int),
                size as nat,
                worker_ids@,
                parallelisms@,
                workers@,
                tables@,
            ),
        decreases ids.len() - from,
    {
        let left: usize = ids.len() - from;
        let n: usize = if size < left {
            size
        } else {
            left
        };
        let batch = take_batch(&ids, from, from + n, parallelisms);
        let policy = TableResizePolicy { worker_ids: worker_ids.clone(), table_parallelisms: batch };
        proof {
            assert(ids@.skip(from as int).take(n as int) =~= ids@.subrange(
                from as int,
                from + n,
            ));
            assert(ids@.skip(from as int).skip(n as int) =~= ids@.skip(from + n));
            assert forall|t: u32| #[trigger] policy.table_parallelisms@.contains_key(
                t,
            ) implies parallelisms@.contains_key(t) by {}
        }
        let plan = match generate_table_resize_plan(&policy, workers, tables) {
            Ok(plan) => plan,
            Err(e) => {
                return Err(e);
            },
        };
        assert(plans_of(plan@).dom() =~= plan@.dom());
        let keys = map_keys(&plan);
        assert(plan@.dom().is_empty() <==> keys@.len() == 0) by {
            if keys@.len() > 0 {
                assert(keys@.to_set().contains(keys@[0]));
            } else {
                assert(keys@.to_set() =~= Set::<u32>::empty());
            }
        }
        if keys.len() > 0 {
            return Ok(ControlDecision::Reschedule(plan));
        }
        from = from + n;
    }
    assert(ids@.skip(from as int).len() == 0);
    Ok(ControlDecision::Rest)
}

/// The state of the monitor that adapts the parallelism of jobs to the workers.
#[derive(Debug)]
pub struct ParallelismMonitor {
    pub worker_cache: BTreeMap<u32, Vec<ParallelUnit>>,
    pub should_trigger: bool,
}

/// The monitor as plain values: the parallel units of the workers that it knows, and whether it
/// checks at the next tick.
pub struct Monitor {
    pub cache: Map<u32, Seq<ParallelUnit>>,
    pub should_trigger: bool,
}

/// The parallel units by worker.
pub open spec fn unit_lists(m: Map<u32, Vec<ParallelUnit>>) -> Map<u32, Seq<ParallelUnit>> {
    Map::new(|k: u32| m.contains_key(k), |k: u32| m[k]@)
}

impl View for ParallelismMonitor {
    type V = Monitor;

    open spec fn view(&self) -> Monitor {
        Monitor { cache: unit_lists(self.worker_cache@), should_trigger: self.should_trigger }
    }
}

/// The parallel units of the given workers.
pub open spec fn cached(workers: Seq<WorkerNode>) -> Map<u32, Seq<ParallelUnit>>
    decreases workers.len(),
{
    if workers.len() == 0 {
        Map::empty()
    } else {
        cached(workers.drop_last()).insert(workers.last().id, workers.last().parallel_units@)
    }
}

/// The worker runs streaming jobs.
pub open spec fn runs_streaming(worker: &WorkerNode) -> bool {
    worker.worker_type == WorkerType::ComputeNode && (worker.property matches Some(p)
        && p.is_streaming)
}

/// Whether the lists of parallel units are the same.
fn same_units(a: &Vec<ParallelUnit>, b: &Vec<ParallelUnit>) -> (res: bool)
    ensures
        res == (a@ == b@),
{
    if a.len() != b.len() {
        return false;
    }
    let mut i: usize = 0;
    while i < a.len()
        invariant
            i <= a.len(),
            a.len() == b.len(),
            forall|j: int| 0 <= j < i ==> #[trigger] a@[j] == b@[j],
        decreases a.len() - i,
    {
        if a[i].id != b[i].id || a[i].worker_node_id != b[i].worker_node_id {
            assert(a@[i as int] != b@[i as int]);
            return false;
        }
        i = i + 1;
    }
    assert(a@ =~= b@);
    true
}

impl ParallelismMonitor {
    /// A monitor that knows the given workers and waits for them to change.
    pub fn new(workers: &Vec<WorkerNode>) -> (res: ParallelismMonitor)
        ensures
            res@ == (Monitor { cache: cached(workers@), should_trigger: false }),
    {
        let mut worker_cache: BTreeMap<u32, Vec<ParallelUnit>> = BTreeMap::new();
        let mut i: usize = 0;
        assert(workers@.take(0) =~= Seq::<WorkerNode>::empty());
        assert(unit_lists(worker_cache@) =~= Map::<u32, Seq<ParallelUnit>>::empty());
        while i < workers.len()
            invariant
                i <= workers.len(),
                unit_lists(worker_cache@) == cached(workers@.take(i as int)),
            decreases workers.len() - i,
        {
            assert(workers@.take(i + 1).drop_last() =~= workers@.take(i as int));
            let ghost before = unit_lists(worker_cache@);
            let units = copy_units(&workers[i].parallel_units);
            worker_cache.insert(workers[i].id, units);
            assert(unit_lists(worker_cache@) =~= before.insert(
                workers@[i as int].id,
                workers@[i as int].parallel_units@,
            ));
            i = i + 1;
        }
        assert(workers@.take(i as int) =~= workers@);
        ParallelismMonitor { worker_cache, should_trigger: false }
    }

    /// At a tick: whether to check the parallelism now. Without workers there is nothing to check,
    /// and the monitor rests.
    pub fn on_tick(&mut self) -> (check: bool)
        ensures
            check == (old(self)@.should_trigger && !old(self)@.cache.dom().is_empty()),
            final(self)@.cache == old(self)@.cache,
            final(self)@.should_trigger == check,
    {
        if !self.should_trigger {
            return false;
        }
        let keys = map_keys(&self.worker_cache);
        assert(unit_lists(self.worker_cache@).dom() =~= self.worker_cache@.dom());
        assert(self.worker_cache@.dom().is_empty() <==> keys@.len() == 0) by {
            if keys@.len() > 0 {
                assert(keys@.to_set().contains(keys@[0]));
            } else {
                assert(keys@.to_set() =~= Set::<u32>::empty());
            }
        }
        if keys.len() == 0 {
            self.should_trigger = false;
            return false;
        }
        true
    }

    /// After a check: on success the monitor goes on checking as told. After a failure it tries
    /// again, and the ticker has to be reset.
    pub fn on_checked(&mut self, outcome: Option<bool>) -> (reset: bool)
        ensures
            reset == (outcome is None),
            final(self)@.cache == old(self)@.cache,
            final(self)@.should_trigger == (match outcome {
                Some(go_on) => go_on,
                None => old(self)@.should_trigger,
            }),
    {
        match outcome {
            Some(go_on) => {
                self.should_trigger = go_on;
                false
            },
            None => true,
        }
    }

    /// A worker was activated: a new streaming worker, or one whose parallel units changed, makes the
    /// monitor check.
    pub fn on_worker_activated(&mut self, worker: &WorkerNode)
        ensures
            if runs_streaming(worker) {
                &&& final(self)@.cache == old(self)@.cache.insert(
                    worker.id,
                    worker.parallel_units@,
                )
                &&& final(self)@.should_trigger == (old(self)@.should_trigger
                    || !old(self)@.cache.contains_key(worker.id) || old(self)@.cache[worker.id]
                    != worker.parallel_units@)
            } else {
                final(self)@ == old(self)@
            },
    {
        let streaming: bool = match worker.property {
            Some(p) => p.is_streaming,
            None => false,
        };
        if worker.worker_type != WorkerType::ComputeNode || !streaming {
            return;
        }
        let changed: bool = match self.worker_cache.get(&worker.id) {
            Some(previous) => !same_units(previous, &worker.parallel_units),
            None => true,
        };
        let ghost before = unit_lists(self.worker_cache@);
        let units = copy_units(&worker.parallel_units);
        self.worker_cache.insert(worker.id, units);
        assert(unit_lists(self.worker_cache@) =~= before.insert(
            worker.id,
            worker.parallel_units@,
        ));
        if changed {
            self.should_trigger = true;
        }
    }

    /// A worker was deleted: the monitor forgets it. Whether it was known.
    pub fn on_worker_deleted(&mut self, worker_id: u32) -> (known: bool)
        ensures
            known == old(self)@.cache.contains_key(worker_id),
            final(self)@.cache == old(self)@.cache.remove(worker_id),
            final(self)@.should_trigger == old(self)@.should_trigger,
    {
        let ghost before = unit_lists(self.worker_cache@);
        let known = self.worker_cache.remove(&worker_id).is_some();
        assert(unit_lists(self.worker_cache@) =~= before.remove(worker_id));
        known
    }
}

} // verus!
