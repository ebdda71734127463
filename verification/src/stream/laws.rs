//! What becomes of jobs, said of the jobs and their actors one by one.
use crate::common::collections::{ascending_of, lemma_ascending_exists, lemma_ascending_len};
use crate::common::worker::{ParallelUnit, WorkerNode};
use crate::scale::actors::lists_of;
use crate::scale::control::{actor_ids, schedulable_workers};
use crate::scale::model::{CustomActorInfo, ParallelUnitReschedule, ScaleError, TableFragments};
use crate::scale::model::{TableParallelism, TableResizePolicy};
use crate::scale::no_shuffle::plans_of;
use crate::scale::resize::generate_table_resize_plan;
use crate::stream::jobs::{asked_to_stop, cancelled_jobs, succeeded, CancelResult, CreationAction};
use crate::stream::jobs::{CreatingStreamingJobInfo, CreationEvent, CreationOutcome, CreationPhase};
use crate::stream::jobs::{JobCreation, StreamingJobExecution};
use crate::stream::locations::{actors_of_fragments, actors_of_jobs, build_actors, by_worker};
use crate::stream::locations::{dropped_actors, infos, placed_of, BuildPlan, Locations};
use crate::stream::resize::{alter_table_parallelism, AlterDecision};
use std::collections::BTreeMap;
use std::collections::BTreeSet;
use vstd::prelude::*;

verus! {

broadcast use {vstd::std_specs::btree::group_btree_axioms, vstd::laws_cmp::group_laws_cmp};

proof fn lemma_asked(jobs: Map<u32, StreamingJobExecution>, ids: Seq<u32>, id: u32)
    ensures
        ({
            let asked = asked_to_stop(jobs, ids);
            &&& asked.to_stop.contains(id) <==> ids.contains(id) && jobs.contains_key(id)
                && jobs[id].can_shut_down
            &&& asked.unknown.contains(id) <==> ids.contains(id) && !jobs.contains_key(id)
            &&& asked.jobs.contains_key(id) <==> jobs.contains_key(id)
            &&& jobs.contains_key(id) ==> asked.jobs[id].id == jobs[id].id
                && asked.jobs[id].can_shut_down == (jobs[id].can_shut_down && !ids.contains(id))
        }),
    decreases ids.len(),
{
    if ids.len() > 0 {
        let front = ids.drop_last();
        let last = ids.last();
        lemma_asked(jobs, front, id);
        lemma_asked(jobs, front, last);
        let before = asked_to_stop(jobs, front);
        let now = asked_to_stop(jobs, ids);
        assert(ids[ids.len() - 1] == last);
        assert(ids.contains(id) <==> front.contains(id) || id == last) by {
            if ids.contains(id) && id != last {
                let i = ids.index_of(id);
                assert(front[i] == id);
            }
            if front.contains(id) {
                assert(ids[front.index_of(id)] == id);
            }
        }
        if !before.jobs.contains_key(last) {
            assert(now.unknown[before.unknown.len() as int] == last);
            if before.unknown.contains(id) {
                assert(now.unknown[before.unknown.index_of(id)] == id);
            }
        } else if before.jobs[last].can_shut_down {
            assert(now.to_stop[before.to_stop.len() as int] == last);
            if before.to_stop.contains(id) {
                assert(now.to_stop[before.to_stop.index_of(id)] == id);
            }
        }
    } else {
        assert(!ids.contains(id));
        assert(!asked_to_stop(jobs, ids).to_stop.contains(id));
        assert(!asked_to_stop(jobs, ids).unknown.contains(id));
    }
}

/// A job that is to be cancelled is asked to stop if it is being created here and was not asked before; it is
/// named as unknown if it is not being created here. After it, it has been asked; other jobs are as they were.
pub proof fn lemma_cancelled_are_asked(
    jobs: &mut CreatingStreamingJobInfo,
    ids: &Vec<u32>,
    res: (Vec<u32>, Vec<u32>),
    id: u32,
)
    requires
        call_ensures(CreatingStreamingJobInfo::cancel_jobs, (jobs, ids), res),
    ensures
        ({
            let before = old(jobs).streaming_jobs@;
            let after = final(jobs).streaming_jobs@;
            &&& res.0@.contains(id) <==> ids@.contains(id) && before.contains_key(id)
                && before[id].can_shut_down
            &&& res.1@.contains(id) <==> ids@.contains(id) && !before.contains_key(id)
            &&& after.contains_key(id) <==> before.contains_key(id)
            &&& before.contains_key(id) ==> after[id].id == before[id].id
                && after[id].can_shut_down == (before[id].can_shut_down && !ids@.contains(id))
        }),
{
    lemma_asked(old(jobs).streaming_jobs@, ids@, id);
}

/// The course of a creation: it ends as soon as the job is created, has failed or nothing more is heard, or when
/// its cancellation is done; it is looked up when it is to be cancelled, and cancelled only if it is not created.
/// The job is among those that are being created until the end, and not after it.
pub proof fn lemma_creation_steps(
    creation: &mut JobCreation,
    event: CreationEvent,
    jobs: &mut CreatingStreamingJobInfo,
    action: CreationAction,
)
    requires
        call_ensures(JobCreation::step, (creation, event, jobs), action),
    ensures
        match event {
            CreationEvent::Created => action matches CreationAction::Finish(
                CreationOutcome::Created,
            ),
            CreationEvent::Closed => action matches CreationAction::Finish(
                CreationOutcome::Created,
            ),
            CreationEvent::Failed { reason } => action == CreationAction::Finish(
                CreationOutcome::Failed { reason },
            ),
            CreationEvent::Canceling => action is LookUp && final(creation).phase
                == CreationPhase::LookingUp,
            CreationEvent::LookedUp { found: None } => action is Wait && final(creation).phase
                == CreationPhase::Waiting,
            CreationEvent::LookedUp { found: Some(job) } => {
                &&& job.withdrawn ==> action is DropActors && final(creation).phase
                    == CreationPhase::Cancelling
                &&& !job.withdrawn && !job.is_created ==> action is RunCancelCommand && final(
                    creation
                ).phase == CreationPhase::Cancelling
                &&& !job.withdrawn && job.is_created ==> action is Wait && final(creation).phase
                    == CreationPhase::Waiting
            },
            CreationEvent::CancelDone { error: Some(reason) } => action == CreationAction::Finish(
                CreationOutcome::Failed { reason },
            ),
            CreationEvent::CancelDone { error: None } => action matches CreationAction::Finish(
                CreationOutcome::Cancelled,
            ),
        },
        action is Finish <==> final(creation).phase == CreationPhase::Finished,
        final(creation).table_id == old(creation).table_id,
        action is Finish ==> !final(jobs).streaming_jobs@.contains_key(old(creation).table_id),
        action is Finish ==> forall|id: u32| #[trigger]
            final(jobs).streaming_jobs@.contains_key(id) ==> old(
                jobs
            ).streaming_jobs@.contains_key(id) && id != old(creation).table_id,
        !(action is Finish) ==> final(jobs).streaming_jobs@ == old(jobs).streaming_jobs@,
{
}

/// How many of the first cancellations succeeded.
pub open spec fn ok_before(results: Seq<CancelResult>, i: int) -> int
    decreases i,
{
    if i <= 0 {
        0
    } else {
        ok_before(results, i - 1) + (if results[i - 1].ok {
            1int
        } else {
            0int
        })
    }
}

proof fn lemma_ok_prefix(a: Seq<CancelResult>, b: Seq<CancelResult>, i: int)
    requires
        i <= a.len(),
        i <= b.len(),
        forall|k: int| 0 <= k < i ==> a[k] == b[k],
    ensures
        ok_before(a, i) == ok_before(b, i),
        i >= 0 ==> 0 <= ok_before(a, i) <= i,
    decreases i,
{
    if i > 0 {
        lemma_ok_prefix(a, b, i - 1);
    }
}

proof fn lemma_succeeded(results: Seq<CancelResult>, i: int)
    ensures
        succeeded(results).len() == ok_before(results, results.len() as int),
        0 <= i < results.len() && results[i].ok ==> 0 <= ok_before(results, i) < succeeded(
            results,
        ).len() && succeeded(results)[ok_before(results, i)] == results[i].job_id,
    decreases results.len(),
{
    if results.len() > 0 {
        let front = results.drop_last();
        let n = results.len() - 1;
        lemma_succeeded(front, i);
        lemma_ok_prefix(front, results, n);
        assert(results[n] == results.last());
        if 0 <= i < n {
            lemma_ok_prefix(front, results, i);
            assert(front[i] == results[i]);
        }
    }
}

/// The jobs that were cancelled are those of which the cancellation succeeded, first those that were asked to
/// stop and after them the recovered ones, each in its order, and no others.
pub proof fn lemma_cancelled_in_order(
    stopped: &Vec<CancelResult>,
    recovered: &Vec<CancelResult>,
    res: Vec<u32>,
    i: int,
)
    requires
        call_ensures(cancelled_jobs, (stopped, recovered), res),
    ensures
        ({
            let first = ok_before(stopped@, stopped@.len() as int);
            &&& res@.len() == first + ok_before(recovered@, recovered@.len() as int)
            &&& 0 <= i < stopped@.len() && stopped@[i].ok ==> res@[ok_before(stopped@, i)]
                == stopped@[i].job_id
            &&& 0 <= i < recovered@.len() && recovered@[i].ok ==> res@[first + ok_before(
                recovered@,
                i,
            )] == recovered@[i].job_id
        }),
{
    lemma_succeeded(stopped@, i);
    lemma_succeeded(recovered@, i);
}

proof fn lemma_by_worker(ids: Seq<u32>, actors: Map<u32, ParallelUnit>, w: u32, a: u32)
    requires
        ids.no_duplicates(),
    ensures
        ({
            let m = by_worker(ids, actors);
            &&& m.contains_key(w) ==> m[w].no_duplicates() && m[w].len() > 0
            &&& m.contains_key(w) && m[w].contains(a) <==> ids.contains(a)
                && actors[a].worker_node_id == w
        }),
    decreases ids.len(),
{
    if ids.len() > 0 {
        let front = ids.drop_last();
        let last = ids.last();
        lemma_by_worker(front, actors, w, a);
        lemma_by_worker(front, actors, w, last);
        let m = by_worker(front, actors);
        let now = by_worker(ids, actors);
        assert(ids[ids.len() - 1] == last);
        assert(ids.contains(a) <==> front.contains(a) || a == last) by {
            if ids.contains(a) && a != last {
                let i = ids.index_of(a);
                assert(front[i] == a);
            }
            if front.contains(a) {
                assert(ids[front.index_of(a)] == a);
            }
        }
        assert(!front.contains(last)) by {
            if front.contains(last) {
                let i = front.index_of(last);
                assert(ids[i] == ids[ids.len() - 1]);
            }
        }
        if actors[last].worker_node_id == w {
            let before = if m.contains_key(w) {
                m[w]
            } else {
                Seq::empty()
            };
            assert(now[w] == before.push(last));
            assert(now[w].contains(a) <==> before.contains(a) || a == last) by {
                if before.contains(a) {
                    assert(now[w][before.index_of(a)] == a);
                }
                assert(now[w][before.len() as int] == last);
            }
        }
    } else {
        assert(!ids.contains(a));
    }
}

/// Every actor of a job is built on the worker that it is placed on, once, and on no other.
pub proof fn lemma_built_where_placed(
    building: &Locations,
    existing: &Locations,
    res: BuildPlan,
    w: u32,
    a: u32,
)
    requires
        call_ensures(build_actors, (building, existing), res),
    ensures
        ({
            let builds = res.building_worker_actors@;
            let at = building.actor_locations@;
            &&& builds.contains_key(w) && builds[w]@.contains(a) <==> at.contains_key(a)
                && at[a].worker_node_id == w
            &&& builds.contains_key(w) ==> builds[w]@.no_duplicates() && builds[w]@.len() > 0
        }),
{
    let at = building.actor_locations@;
    lemma_ascending_exists(at.dom());
    let ids = ascending_of(at.dom());
    lemma_ascending_len(ids);
    lemma_by_worker(ids, at, w, a);
    assert(ids.contains(a) <==> at.contains_key(a)) by {
        assert(ids.to_set().contains(a) <==> at.dom().contains(a));
    }
    let lists = lists_of(res.building_worker_actors@);
    assert(lists.contains_key(w) <==> res.building_worker_actors@.contains_key(w));
}

/// All workers learn of every actor of the job and of every existing one around it the address of its worker.
pub proof fn lemma_addresses_broadcast(building: &Locations, existing: &Locations, res: BuildPlan, a: u32)
    requires
        call_ensures(build_actors, (building, existing), res),
    ensures
        res.actor_infos_to_broadcast@.len() == building.actor_locations@.dom().len()
            + existing.actor_locations@.dom().len(),
        building.actor_locations@.contains_key(a) ==> exists|i: int|
            0 <= i < res.actor_infos_to_broadcast@.len() && (
            #[trigger] res.actor_infos_to_broadcast@[i]).actor_id == a
                && crate::common::worker::endpoint(res.actor_infos_to_broadcast@[i].host)
                == crate::common::worker::endpoint(
                building.worker_locations@[building.actor_locations@[a].worker_node_id].host,
            ),
        existing.actor_locations@.contains_key(a) ==> exists|i: int|
            0 <= i < res.actor_infos_to_broadcast@.len() && (
            #[trigger] res.actor_infos_to_broadcast@[i]).actor_id == a
                && crate::common::worker::endpoint(res.actor_infos_to_broadcast@[i].host)
                == crate::common::worker::endpoint(
                existing.worker_locations@[existing.actor_locations@[a].worker_node_id].host,
            ),
{
    let at = building.actor_locations@;
    let around = existing.actor_locations@;
    lemma_ascending_exists(at.dom());
    lemma_ascending_exists(around.dom());
    let ids = ascending_of(at.dom());
    let others = ascending_of(around.dom());
    let list = res.actor_infos_to_broadcast@;
    let first = placed_of(ids, at, building.worker_locations@);
    let second = placed_of(others, around, existing.worker_locations@);
    assert(infos(list) == first + second);
    assert(infos(list).len() == list.len());
    if at.contains_key(a) {
        assert(ids.to_set().contains(a));
        let i = ids.index_of(a);
        assert(infos(list)[i] == first[i]);
        assert(infos(list)[i] == list[i]@);
        assert(list[i].actor_id == a);
    }
    if around.contains_key(a) {
        assert(others.to_set().contains(a));
        let i = others.index_of(a);
        let k = ids.len() + i;
        assert(infos(list)[k] == second[i]);
        assert(infos(list)[k] == list[k]@);
        assert(list[k].actor_id == a);
    }
}

proof fn lemma_concat_has(a: Seq<u32>, b: Seq<u32>, x: u32)
    ensures
        (a + b).contains(x) <==> a.contains(x) || b.contains(x),
{
    let s = a + b;
    if s.contains(x) {
        let i = s.index_of(x);
        if i < a.len() {
            assert(a[i] == x);
        } else {
            assert(b[i - a.len()] == x);
        }
    }
    if a.contains(x) {
        assert(s[a.index_of(x)] == x);
    }
    if b.contains(x) {
        assert(s[a.len() + b.index_of(x)] == x);
    }
}

proof fn lemma_ids_have(actors: Seq<CustomActorInfo>, x: u32)
    ensures
        actor_ids(actors).contains(x) <==> exists|j: int|
            0 <= j < actors.len() && (#[trigger] actors[j]).actor_id == x,
{
    let ids = actor_ids(actors);
    if ids.contains(x) {
        let j = ids.index_of(x);
        assert(actors[j].actor_id == x);
    }
    if exists|j: int| 0 <= j < actors.len() && (#[trigger] actors[j]).actor_id == x {
        let j = choose|j: int| 0 <= j < actors.len() && (#[trigger] actors[j]).actor_id == x;
        assert(ids[j] == x);
    }
}

/// The job has the actor in one of its fragments.
pub open spec fn has_actor(table: TableFragments, x: u32) -> bool {
    exists|f: u32, j: int|
        table.fragments@.contains_key(f) && 0 <= j < table.fragments@[f].actors@.len() && (
        #[trigger] table.fragments@[f].actors@[j]).actor_id == x
}

proof fn lemma_fragments_have(fs: Seq<u32>, table: TableFragments, x: u32)
    ensures
        actors_of_fragments(fs, table).contains(x) <==> exists|i: int, j: int|
            0 <= i < fs.len() && 0 <= j < table.fragments@[fs[i]].actors@.len() && (
            #[trigger] table.fragments@[fs[i]].actors@[j]).actor_id == x,
    decreases fs.len(),
{
    if fs.len() > 0 {
        let front = fs.drop_last();
        let n = fs.len() - 1;
        let last = table.fragments@[fs.last()].actors@;
        lemma_fragments_have(front, table, x);
        lemma_ids_have(last, x);
        lemma_concat_has(actors_of_fragments(front, table), actor_ids(last), x);
        assert(fs[n] == fs.last());
        if actors_of_fragments(front, table).contains(x) {
            let (i, j) = choose|i: int, j: int|
                0 <= i < front.len() && 0 <= j < table.fragments@[front[i]].actors@.len() && (
                #[trigger] table.fragments@[front[i]].actors@[j]).actor_id == x;
            assert(table.fragments@[fs[i]].actors@[j].actor_id == x);
        }
        if actor_ids(last).contains(x) {
            let j = choose|j: int| 0 <= j < last.len() && (#[trigger] last[j]).actor_id == x;
            assert(table.fragments@[fs[n]].actors@[j].actor_id == x);
        }
        if exists|i: int, j: int|
            0 <= i < fs.len() && 0 <= j < table.fragments@[fs[i]].actors@.len() && (
            #[trigger] table.fragments@[fs[i]].actors@[j]).actor_id == x {
            let (i, j) = choose|i: int, j: int|
                0 <= i < fs.len() && 0 <= j < table.fragments@[fs[i]].actors@.len() && (
                #[trigger] table.fragments@[fs[i]].actors@[j]).actor_id == x;
            if i < n {
                assert(table.fragments@[front[i]].actors@[j].actor_id == x);
            } else {
                assert(last[j].actor_id == x);
            }
        }
    } else {
        assert(!actors_of_fragments(fs, table).contains(x));
    }
}

proof fn lemma_jobs_have(tables: Seq<TableFragments>, x: u32)
    ensures
        actors_of_jobs(tables).contains(x) <==> exists|t: int|
            0 <= t < tables.len() && has_actor(#[trigger] tables[t], x),
    decreases tables.len(),
{
    if tables.len() > 0 {
        let front = tables.drop_last();
        let n = tables.len() - 1;
        let last = tables.last();
        lemma_jobs_have(front, x);
        lemma_ascending_exists(last.fragments@.dom());
        let fs = ascending_of(last.fragments@.dom());
        lemma_fragments_have(fs, last, x);
        lemma_concat_has(actors_of_jobs(front), actors_of_fragments(fs, last), x);
        assert(tables[n] == last);
        assert(actors_of_fragments(fs, last).contains(x) <==> has_actor(last, x)) by {
            if actors_of_fragments(fs, last).contains(x) {
                let (i, j) = choose|i: int, j: int|
                    0 <= i < fs.len() && 0 <= j < last.fragments@[fs[i]].actors@.len() && (
                    #[trigger] last.fragments@[fs[i]].actors@[j]).actor_id == x;
                assert(fs.to_set().contains(fs[i]));
                assert(last.fragments@[fs[i]].actors@[j].actor_id == x);
            }
            if has_actor(last, x) {
                let (f, j) = choose|f: u32, j: int|
                    last.fragments@.contains_key(f) && 0 <= j < last.fragments@[f].actors@.len()
                        && (#[trigger] last.fragments@[f].actors@[j]).actor_id == x;
                assert(fs.to_set().contains(f));
                let i = fs.index_of(f);
                assert(last.fragments@[fs[i]].actors@[j].actor_id == x);
            }
        }
        if actors_of_jobs(front).contains(x) {
            let t = choose|t: int| 0 <= t < front.len() && has_actor(#[trigger] front[t], x);
            assert(tables[t] == front[t]);
        }
        if exists|t: int| 0 <= t < tables.len() && has_actor(#[trigger] tables[t], x) {
            let t = choose|t: int| 0 <= t < tables.len() && has_actor(#[trigger] tables[t], x);
            if t < n {
                assert(front[t] == tables[t]);
            }
        }
    } else {
        assert(!actors_of_jobs(tables).contains(x));
    }
}

/// The actors that are dropped with jobs are all actors of all their fragments, and no others.
pub proof fn lemma_dropped_with_jobs(tables: &Vec<TableFragments>, res: Vec<u32>, x: u32)
    requires
        call_ensures(dropped_actors, (tables,), res),
    ensures
        res@.contains(x) <==> exists|t: int|
            0 <= t < tables@.len() && has_actor(#[trigger] tables@[t], x),
{
    lemma_jobs_have(tables@, x);
}

/// Changing the parallelism of a job: a deferred change moves nothing. Otherwise what moves is what the plan that
/// resizes this job alone, on the workers that may be used, asks for; and if it asks for nothing, nothing moves.
pub proof fn lemma_altered_by_plan(
    table_id: u32,
    parallelism: TableParallelism,
    deferred: bool,
    workers: &Vec<WorkerNode>,
    tables: &Vec<TableFragments>,
    res: Result<AlterDecision, ScaleError>,
    policy: &TableResizePolicy,
    plan: Result<BTreeMap<u32, ParallelUnitReschedule>, ScaleError>,
    usable: BTreeSet<u32>,
)
    requires
        call_ensures(
            alter_table_parallelism,
            (table_id, parallelism, deferred, workers, tables),
            res,
        ),
        call_ensures(schedulable_workers, (workers,), usable),
        policy.worker_ids@ == usable@,
        policy.table_parallelisms@.dom() =~= Set::<u32>::empty().insert(table_id),
        policy.table_parallelisms@[table_id] == parallelism,
        call_ensures(generate_table_resize_plan, (policy, workers, tables), plan),
    ensures
        deferred ==> res matches Ok(AlterDecision::Record),
        !deferred ==> match plan {
            Err(e) => res matches Err(err) && err == e,
            Ok(p) => if p@.dom().is_empty() {
                res matches Ok(AlterDecision::Record)
            } else {
                res matches Ok(AlterDecision::Reschedule(q)) && plans_of(q@) == plans_of(p@)
            },
        },
{
    assert(policy.table_parallelisms@ =~= Map::<u32, TableParallelism>::empty().insert(
        table_id,
        parallelism,
    ));
    match plan {
        Ok(p) => {
            assert(plans_of(p@).dom() =~= p@.dom());
        },
        Err(_) => {},
    }
}

} // verus!
