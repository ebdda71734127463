use risingwave_core::common::worker::{
    HostAddress, ParallelUnit, Property, WorkerNode, WorkerState, WorkerType,
};
use risingwave_core::manager::objects::CreateType;
use risingwave_core::stream::jobs::{
    cancelled_jobs, fragments_to_drop, merge_splits, needs_drop, CancelResult, CreatingStreamingJobInfo,
    CreationAction, CreationEvent, CreationOutcome, CreationPhase, JobCreation, JobLookup,
    StreamingJobExecution,
};
use risingwave_core::stream::locations::{build_actors, Locations};
use std::collections::{BTreeMap, BTreeSet};

#[test]
fn jobs_are_asked_to_stop_once() {
    let mut jobs = CreatingStreamingJobInfo::new();
    jobs.add_job(StreamingJobExecution::new(1));
    jobs.add_job(StreamingJobExecution::new(2));
    let (asked, unknown) = jobs.cancel_jobs(&vec![2, 3]);
    assert_eq!((asked, unknown), (vec![2], vec![3]));
    let (asked, _) = jobs.cancel_jobs(&vec![2]);
    assert!(asked.is_empty());
    jobs.delete_job(2);
    let (asked, unknown) = jobs.cancel_jobs(&vec![2, 1]);
    assert_eq!((asked, unknown), (vec![1], vec![2]));
}

#[test]
fn creations_end() {
    let mut jobs = CreatingStreamingJobInfo::new();
    let mut job = JobCreation::start(7, &mut jobs);
    assert!(jobs.streaming_jobs.contains_key(&7));
    assert!(matches!(
        job.step(CreationEvent::Created, &mut jobs),
        CreationAction::Finish(CreationOutcome::Created)
    ));
    assert!(!jobs.streaming_jobs.contains_key(&7));
    assert_eq!(job.phase, CreationPhase::Finished);

    let mut job = JobCreation::start(8, &mut jobs);
    assert!(matches!(
        job.step(CreationEvent::Failed { reason: "r".to_string() }, &mut jobs),
        CreationAction::Finish(CreationOutcome::Failed { reason }) if reason == "r"
    ));
}

#[test]
fn creations_are_cancelled() {
    let mut jobs = CreatingStreamingJobInfo::new();
    let mut job = JobCreation::start(7, &mut jobs);
    assert!(matches!(job.step(CreationEvent::Canceling, &mut jobs), CreationAction::LookUp));
    let found = Some(JobLookup { withdrawn: true, is_created: false });
    assert!(matches!(
        job.step(CreationEvent::LookedUp { found }, &mut jobs),
        CreationAction::DropActors
    ));
    assert!(jobs.streaming_jobs.contains_key(&7));
    assert!(matches!(
        job.step(CreationEvent::CancelDone { error: None }, &mut jobs),
        CreationAction::Finish(CreationOutcome::Cancelled)
    ));
    assert!(!jobs.streaming_jobs.contains_key(&7));

    let mut job = JobCreation::start(8, &mut jobs);
    job.step(CreationEvent::Canceling, &mut jobs);
    let found = Some(JobLookup { withdrawn: false, is_created: false });
    assert!(matches!(
        job.step(CreationEvent::LookedUp { found }, &mut jobs),
        CreationAction::RunCancelCommand
    ));
    assert!(matches!(
        job.step(CreationEvent::CancelDone { error: Some("e".to_string()) }, &mut jobs),
        CreationAction::Finish(CreationOutcome::Failed { .. })
    ));

    let mut job = JobCreation::start(9, &mut jobs);
    job.step(CreationEvent::Canceling, &mut jobs);
    let found = Some(JobLookup { withdrawn: false, is_created: true });
    assert!(matches!(
        job.step(CreationEvent::LookedUp { found }, &mut jobs),
        CreationAction::Wait
    ));
    assert_eq!(job.phase, CreationPhase::Waiting);
}

#[test]
fn fragments_are_dropped_after_a_failure() {
    let ids = |set: BTreeSet<u32>| set.into_iter().collect::<Vec<u32>>();
    assert_eq!(ids(fragments_to_drop(CreateType::Foreground, false, 1, Some(2))), vec![1, 2]);
    assert_eq!(ids(fragments_to_drop(CreateType::Background, true, 1, None)), vec![1]);
    assert!(fragments_to_drop(CreateType::Background, false, 1, None).is_empty());
    assert!(needs_drop(&vec![1], &vec![], &vec![]));
    assert!(!needs_drop(&vec![], &vec![], &vec![]));
}

#[test]
fn cancelled_jobs_are_those_that_stopped() {
    let result = |job_id, ok| CancelResult { job_id, ok };
    assert_eq!(
        cancelled_jobs(&vec![result(1, true), result(2, false)], &vec![result(3, true)]),
        vec![1, 3]
    );
}

#[test]
fn splits_are_merged() {
    let one = |f: u32, a: u32, s: u64| -> BTreeMap<u32, BTreeMap<u32, Vec<u64>>> {
        [(f, [(a, vec![s])].into_iter().collect())].into_iter().collect()
    };
    let merged = merge_splits(one(1, 10, 100), one(2, 20, 200));
    assert_eq!(merged.len(), 2);
    assert_eq!(merged[&2][&20], vec![200]);
}

fn worker(id: u32) -> WorkerNode {
    WorkerNode {
        id,
        worker_type: WorkerType::ComputeNode,
        host: Some(HostAddress { host: "h".to_string(), port: id as i32 }),
        state: WorkerState::Running,
        parallel_units: vec![],
        property: Some(Property { is_streaming: true, is_serving: true, is_unschedulable: false }),
        transactional_id: None,
        resource: None,
        started_at: None,
    }
}

fn locations(actors: &[(u32, u32)], workers: &[u32]) -> Locations {
    Locations {
        actor_locations: actors
            .iter()
            .map(|(a, w)| (*a, ParallelUnit { id: *a + 100, worker_node_id: *w }))
            .collect(),
        worker_locations: workers.iter().map(|w| (*w, worker(*w))).collect(),
    }
}

#[test]
fn actors_are_built_where_they_are() {
    let building = locations(&[(1, 5), (2, 6), (3, 5)], &[5, 6]);
    let existing = locations(&[(9, 7)], &[7]);
    assert_eq!(building.worker_actors()[&5], vec![1, 3]);
    let plan = build_actors(&building, &existing);
    assert_eq!(plan.building_worker_actors[&5], vec![1, 3]);
    assert_eq!(plan.building_worker_actors[&6], vec![2]);
    assert!(!plan.building_worker_actors.contains_key(&7));
    let mut told: Vec<(u32, i32)> = plan
        .actor_infos_to_broadcast
        .iter()
        .map(|i| (i.actor_id, i.host.as_ref().unwrap().port))
        .collect();
    told.sort();
    assert_eq!(told, vec![(1, 5), (2, 6), (3, 5), (9, 7)]);
}
