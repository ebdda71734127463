//! Jobs that are being created, and what becomes of them.
use crate::common::collections::map_keys;
use crate::manager::objects::CreateType;
use std::collections::BTreeMap;
use std::collections::BTreeSet;
use vstd::prelude::*;

verus! {

broadcast use {
    vstd::std_specs::btree::group_btree_axioms,
    vstd::laws_cmp::group_laws_cmp,
};

/// Options of the creation of a job. There are none so far.
#[derive(Clone, Copy, Debug, Default, PartialEq, Eq, Structural)]
pub struct CreateStreamingJobOption {}

/// A job that is being created.
#[derive(Clone, Copy, Debug, PartialEq, Eq, Structural)]
pub struct StreamingJobExecution {
    pub id: u32,
    /// Nobody has asked the job to stop yet.
    pub can_shut_down: bool,
}

impl StreamingJobExecution {
    /// A job that can be asked to stop.
    pub fn new(id: u32) -> (res: StreamingJobExecution)
        ensures
            res.id == id,
            res.can_shut_down,
    {
        StreamingJobExecution { id, can_shut_down: true }
    }
}

/// The jobs that are being created.
#[derive(Debug)]
pub struct CreatingStreamingJobInfo {
    pub streaming_jobs: BTreeMap<u32, StreamingJobExecution>,
}

/// The jobs, and what came of asking some of them to stop.
pub struct Asked {
    pub jobs: Map<u32, StreamingJobExecution>,
    /// The jobs that are now asked to stop.
    pub to_stop: Seq<u32>,
    /// The jobs that are not being created here.
    pub unknown: Seq<u32>,
}

/// Asks the given jobs to stop, one after the other: a job that was asked before is not asked again.
pub open spec fn asked_to_stop(jobs: Map<u32, StreamingJobExecution>, ids: Seq<u32>) -> Asked
    decreases ids.len(),
{
    if ids.len() == 0 {
        Asked { jobs, to_stop: Seq::empty(), unknown: Seq::empty() }
    } else {
        let before = asked_to_stop(jobs, ids.drop_last());
        let id = ids.last();
        if !before.jobs.contains_key(id) {
            Asked { unknown: before.unknown.push(id), ..before }
        } else if before.jobs[id].can_shut_down {
            Asked {
                jobs: before.jobs.insert(
                    id,
                    StreamingJobExecution { id: before.jobs[id].id, can_shut_down: false },
                ),
                to_stop: before.to_stop.push(id),
                unknown: before.unknown,
            }
        } else {
            before
        }
    }
}

/// No job is asked to stop twice.
pub proof fn lemma_asked_once(jobs: Map<u32, StreamingJobExecution>, ids: Seq<u32>)
    ensures
        asked_to_stop(jobs, ids).to_stop.no_duplicates(),
        asked_to_stop(jobs, ids).jobs.dom() == jobs.dom(),
        forall|id: u32| #[trigger]
            asked_to_stop(jobs, ids).to_stop.contains(id) ==> jobs.contains_key(id)
                && jobs[id].can_shut_down && !asked_to_stop(jobs, ids).jobs[id].can_shut_down,
        forall|id: u32| #[trigger]
            jobs.contains_key(id) && !asked_to_stop(jobs, ids).to_stop.contains(id)
                ==> asked_to_stop(jobs, ids).jobs[id] == jobs[id],
    decreases ids.len(),
{
    if ids.len() > 0 {
        lemma_asked_once(jobs, ids.drop_last());
        let before = asked_to_stop(jobs, ids.drop_last());
        let after = asked_to_stop(jobs, ids);
        let x = ids.last();
        if before.jobs.contains_key(x) && before.jobs[x].can_shut_down {
            assert(!before.to_stop.contains(x));
            assert(after.jobs.dom() =~= jobs.dom());
            assert forall|id: u32| #[trigger] after.to_stop.contains(id) implies jobs.contains_key(id)
                && jobs[id].can_shut_down && !after.jobs[id].can_shut_down by {
                let k = choose|k: int| 0 <= k < after.to_stop.len() && after.to_stop[k] == id;
                if k < before.to_stop.len() {
                    assert(before.to_stop[k] == id);
                    assert(before.to_stop.contains(id));
                }
            }
            assert forall|id: u32| #[trigger] jobs.contains_key(id) && !after.to_stop.contains(
                id,
            ) implies after.jobs[id] == jobs[id] by {
                assert(after.to_stop[before.to_stop.len() as int] == x);
                assert(id != x);
                assert(!before.to_stop.contains(id)) by {
                    if before.to_stop.contains(id) {
                        let k = choose|k: int|
                            0 <= k < before.to_stop.len() && before.to_stop[k] == id;
                        assert(after.to_stop[k] == id);
                    }
                }
            }
            assert(after.to_stop.no_duplicates()) by {
                assert forall|a: int, b: int|
                    0 <= a < after.to_stop.len() && 0 <= b < after.to_stop.len() && a
                        != b implies after.to_stop[a] != after.to_stop[b] by {
                    if a < before.to_stop.len() {
                        assert(before.to_stop.contains(before.to_stop[a]));
                    }
                    if b < before.to_stop.len() {
                        assert(before.to_stop.contains(before.to_stop[b]));
                    }
                }
            }
        }
    }
}

impl CreatingStreamingJobInfo {
    /// No job is being created.
    pub fn new() -> (res: CreatingStreamingJobInfo)
        ensures
            res.streaming_jobs@ == Map::<u32, StreamingJobExecution>::empty(),
    {
        let res = CreatingStreamingJobInfo { streaming_jobs: BTreeMap::new() };
        assert(res.streaming_jobs@ =~= Map::<u32, StreamingJobExecution>::empty());
        res
    }

    /// A job is being created.
    pub fn add_job(&mut self, job: StreamingJobExecution)
        ensures
            final(self).streaming_jobs@ == old(self).streaming_jobs@.insert(job.id, job),
    {
        self.streaming_jobs.insert(job.id, job);
    }

    /// A job is not being created any more.
    pub fn delete_job(&mut self, job_id: u32)
        ensures
            final(self).streaming_jobs@ == old(self).streaming_jobs@.remove(job_id),
    {
        self.streaming_jobs.remove(&job_id);
    }

    /// Asks jobs to stop. Those that can be asked are returned first. Those that are not being created
    /// here do not exist, or were recovered and are managed with the barriers; they come second.
    pub fn cancel_jobs(&mut self, job_ids: &Vec<u32>) -> (res: (Vec<u32>, Vec<u32>))
        ensures
            ({
                let asked = asked_to_stop(old(self).streaming_jobs@, job_ids@);
                &&& final(self).streaming_jobs@ == asked.jobs
                &&& res.0@ == asked.to_stop
                &&& res.1@ == asked.unknown
            }),
    {
        let ghost jobs = self.streaming_jobs@;
        let mut to_stop: Vec<u32> = Vec::new();
        let mut unknown: Vec<u32> = Vec::new();
        let mut i: usize = 0;
        assert(job_ids@.take(0) =~= Seq::<u32>::empty());
        while i < job_ids.len()
            invariant
                i <= job_ids.len(),
                self.streaming_jobs@ == asked_to_stop(jobs, job_ids@.take(i as int)).jobs,
                to_stop@ == asked_to_stop(jobs, job_ids@.take(i as int)).to_stop,
                unknown@ == asked_to_stop(jobs, job_ids@.take(i as int)).unknown,
            decreases job_ids.len() - i,
        {
            let id: u32 = job_ids[i];
            assert(job_ids@.take(i + 1).drop_last() =~= job_ids@.take(i as int));
            assert(job_ids@.take(i + 1).last() == id);
            let known: Option<StreamingJobExecution> = match self.streaming_jobs.get(&id) {
                Some(job) => Some(*job),
                None => None,
            };
            match known {
                Some(job) => {
                    if job.can_shut_down {
                        self.streaming_jobs.insert(
                            id,
                            StreamingJobExecution { id: job.id, can_shut_down: false },
                        );
                        to_stop.push(id);
                    }
                },
                None => {
                    unknown.push(id);
                },
            }
            i = i + 1;
        }
        assert(job_ids@.take(i as int) =~= job_ids@);
        (to_stop, unknown)
    }
}

/// What those that wait for a job to be created hear of it.
#[derive(Debug)]
pub enum CreationEvent {
    /// The creation failed.
    Failed { reason: String },
    /// The job is to be cancelled.
    Canceling,
    /// The job is created.
    Created,
    /// Nothing more will be heard.
    Closed,
    /// The job was looked up. It may be unknown; the command that creates it may still have been waiting
    /// and have been withdrawn.
    LookedUp { found: Option<JobLookup> },
    /// What had to be done to cancel the job was done, or failed.
    CancelDone { error: Option<String> },
}

/// What was found of a job.
#[derive(Clone, Copy, Debug, PartialEq, Eq, Structural)]
pub struct JobLookup {
    /// The command that creates the job was waiting and has been withdrawn.
    pub withdrawn: bool,
    /// The job is created.
    pub is_created: bool,
}

/// What has to be done next while a job is being created.
#[derive(Debug)]
pub enum CreationAction {
    /// Wait.
    Wait,
    /// Look the job up.
    LookUp,
    /// Drop the actors of the job.
    DropActors,
    /// Run the command that cancels the job.
    RunCancelCommand,
    /// Nothing: the job is created, or has failed.
    Finish(CreationOutcome),
}

/// What became of a job.
#[derive(Debug)]
pub enum CreationOutcome {
    Created,
    Failed { reason: String },
    Cancelled,
}

/// Where the creation of a job stands.
#[derive(Clone, Copy, Debug, PartialEq, Eq, Structural)]
pub enum CreationPhase {
    Waiting,
    LookingUp,
    Cancelling,
    Finished,
}

/// The event can happen in the phase.
pub open spec fn event_fits(phase: CreationPhase, event: CreationEvent) -> bool {
    match event {
        CreationEvent::LookedUp { .. } => phase == CreationPhase::LookingUp,
        CreationEvent::CancelDone { .. } => phase == CreationPhase::Cancelling,
        _ => phase == CreationPhase::Waiting,
    }
}

/// What has to be done at an event.
pub open spec fn creation_action(event: CreationEvent) -> CreationAction {
    match event {
        CreationEvent::Failed { reason } => CreationAction::Finish(
            CreationOutcome::Failed { reason },
        ),
        CreationEvent::Canceling => CreationAction::LookUp,
        CreationEvent::Created => CreationAction::Finish(CreationOutcome::Created),
        CreationEvent::Closed => CreationAction::Finish(CreationOutcome::Created),
        CreationEvent::LookedUp { found } => match found {
            None => CreationAction::Wait,
            Some(job) => if job.withdrawn {
                CreationAction::DropActors
            } else if !job.is_created {
                CreationAction::RunCancelCommand
            } else {
                CreationAction::Wait
            },
        },
        CreationEvent::CancelDone { error } => match error {
            Some(reason) => CreationAction::Finish(CreationOutcome::Failed { reason }),
            None => CreationAction::Finish(CreationOutcome::Cancelled),
        },
    }
}

/// The phase that an action leads to.
pub open spec fn phase_after(action: CreationAction) -> CreationPhase {
    match action {
        CreationAction::Wait => CreationPhase::Waiting,
        CreationAction::LookUp => CreationPhase::LookingUp,
        CreationAction::DropActors => CreationPhase::Cancelling,
        CreationAction::RunCancelCommand => CreationPhase::Cancelling,
        CreationAction::Finish(_) => CreationPhase::Finished,
    }
}

/// The creation of a job, until it is finished.
#[derive(Debug)]
pub struct JobCreation {
    pub table_id: u32,
    pub phase: CreationPhase,
}

impl JobCreation {
    /// Starts to create a job: it is entered among the jobs that are being created.
    pub fn start(table_id: u32, jobs: &mut CreatingStreamingJobInfo) -> (res: JobCreation)
        ensures
            res.table_id == table_id,
            res.phase == CreationPhase::Waiting,
            final(jobs).streaming_jobs@ == old(jobs).streaming_jobs@.insert(
                table_id,
                StreamingJobExecution { id: table_id, can_shut_down: true },
            ),
    {
        jobs.add_job(StreamingJobExecution::new(table_id));
        JobCreation { table_id, phase: CreationPhase::Waiting }
    }

    /// What has to be done at an event. When the creation is finished, the job is not among those that
    /// are being created any more, however it ended.
    pub fn step(&mut self, event: CreationEvent, jobs: &mut CreatingStreamingJobInfo) -> (res:
        CreationAction)
        requires
            event_fits(old(self).phase, event),
        ensures
            res == creation_action(event),
            final(self).table_id == old(self).table_id,
            final(self).phase == phase_after(res),
            final(jobs).streaming_jobs@ == (if res is Finish {
                old(jobs).streaming_jobs@.remove(old(self).table_id)
            } else {
                old(jobs).streaming_jobs@
            }),
    {
        let action = match event {
            CreationEvent::Failed { reason } => CreationAction::Finish(
                CreationOutcome::Failed { reason },
            ),
            CreationEvent::Canceling => CreationAction::LookUp,
            CreationEvent::Created => CreationAction::Finish(CreationOutcome::Created),
            CreationEvent::Closed => CreationAction::Finish(CreationOutcome::Created),
            CreationEvent::LookedUp { found } => match found {
                None => CreationAction::Wait,
                Some(job) => if job.withdrawn {
                    CreationAction::DropActors
                } else if !job.is_created {
                    CreationAction::RunCancelCommand
                } else {
                    CreationAction::Wait
                },
            },
            CreationEvent::CancelDone { error } => match error {
                Some(reason) => CreationAction::Finish(CreationOutcome::Failed { reason }),
                None => CreationAction::Finish(CreationOutcome::Cancelled),
            },
        };
        let phase = match &action {
            CreationAction::Wait => CreationPhase::Waiting,
            CreationAction::LookUp => CreationPhase::LookingUp,
            CreationAction::DropActors => CreationPhase::Cancelling,
            CreationAction::RunCancelCommand => CreationPhase::Cancelling,
            CreationAction::Finish(_) => CreationPhase::Finished,
        };
        self.phase = phase;
        if phase == CreationPhase::Finished {
            jobs.delete_job(self.table_id);
        }
        action
    }
}

/// The tables whose fragments have to be dropped when the command that creates a job failed: those of the
/// job and of the table that it was to replace. A job in the background is kept for the recovery, unless
/// it was cancelled.
pub fn fragments_to_drop(
    create_type: CreateType,
    is_cancelled: bool,
    table_id: u32,
    replace_table_id: Option<u32>,
) -> (res: BTreeSet<u32>)
    ensures
        forall|id: u32| #[trigger]
            res@.contains(id) <==> (create_type == CreateType::Foreground || is_cancelled) && (id
                == table_id || replace_table_id == Some(id)),
{
    let mut res: BTreeSet<u32> = BTreeSet::new();
    if create_type == CreateType::Foreground || is_cancelled {
        res.insert(table_id);
        if let Some(id) = replace_table_id {
            res.insert(id);
        }
    }
    res
}

/// Whether there is anything to drop.
pub fn needs_drop(removed_actors: &Vec<u32>, job_ids: &Vec<u32>, state_table_ids: &Vec<u32>) -> (res: bool)
    ensures
        res == (removed_actors@.len() > 0 || job_ids@.len() > 0 || state_table_ids@.len() > 0),
{
    removed_actors.len() > 0 || job_ids.len() > 0 || state_table_ids.len() > 0
}

/// A job and whether its cancellation succeeded.
#[derive(Clone, Copy, Debug, PartialEq, Eq, Structural)]
pub struct CancelResult {
    pub job_id: u32,
    pub ok: bool,
}

/// The jobs of which the cancellation succeeded.
pub open spec fn succeeded(results: Seq<CancelResult>) -> Seq<u32>
    decreases results.len(),
{
    if results.len() == 0 {
        Seq::empty()
    } else if results.last().ok {
        succeeded(results.drop_last()).push(results.last().job_id)
    } else {
        succeeded(results.drop_last())
    }
}

/// Appends the jobs of which the cancellation succeeded.
fn push_succeeded(res: &mut Vec<u32>, results: &Vec<CancelResult>)
    ensures
        final(res)@ == old(res)@ + succeeded(results@),
{
    let ghost res0 = res@;
    let mut i: usize = 0;
    assert(results@.take(0) =~= Seq::<CancelResult>::empty());
    assert(res@ =~= res0 + succeeded(results@.take(0)));
    while i < results.len()
        invariant
            i <= results.len(),
            res@ == res0 + succeeded(results@.take(i as int)),
        decreases results.len() - i,
    {
        assert(results@.take(i + 1).drop_last() =~= results@.take(i as int));
        assert(results@.take(i + 1).last() == results@[i as int]);
        if results[i].ok {
            res.push(results[i].job_id);
        }
        assert(res@ =~= res0 + succeeded(results@.take(i + 1)));
        i = i + 1;
    }
    assert(results@.take(i as int) =~= results@);
}

/// The jobs that were cancelled: those that were asked to stop and did, then the recovered ones that the
/// barriers cancelled.
pub fn cancelled_jobs(stopped: &Vec<CancelResult>, recovered: &Vec<CancelResult>) -> (res: Vec<u32>)
    ensures
        res@ == succeeded(stopped@) + succeeded(recovered@),
{
    let mut res: Vec<u32> = Vec::new();
    push_succeeded(&mut res, stopped);
    push_succeeded(&mut res, recovered);
    assert(res@ =~= succeeded(stopped@) + succeeded(recovered@));
    res
}

/// The splits of the fragments of a job: those that it reads itself, and those of its backfill, which
/// come later and win.
pub fn merge_splits(
    own: BTreeMap<u32, BTreeMap<u32, Vec<u64>>>,
    backfill: BTreeMap<u32, BTreeMap<u32, Vec<u64>>>,
) -> (res: BTreeMap<u32, BTreeMap<u32, Vec<u64>>>)
    ensures
        res@ == own@.union_prefer_right(backfill@),
{
    let ghost m0 = own@;
    let ghost all = backfill@;
    let mut res = own;
    let mut rest = backfill;
    let ids = map_keys(&rest);
    let mut i: usize = 0;
    assert(res@ =~= m0.union_prefer_right(all.restrict(ids@.take(0).to_set())));
    while i < ids.len()
        invariant
            i <= ids.len(),
            ids@.to_set() == all.dom(),
            crate::common::collections::ascending(ids@),
            forall|j: int|
                i <= j < ids.len() ==> rest@.contains_key(#[trigger] ids@[j]) && rest@[ids@[j]]
                    == all[ids@[j]],
            res@ == m0.union_prefer_right(all.restrict(ids@.take(i as int).to_set())),
        decreases ids.len() - i,
    {
        let f: u32 = ids[i];
        assert(ids@.to_set().contains(ids@[i as int]));
        let splits = rest.remove(&f).unwrap();
        res.insert(f, splits);
        proof {
            assert(ids@.take(i + 1) =~= ids@.take(i as int).push(f));
            crate::common::collections::lemma_to_set_push(ids@.take(i as int), f);
            assert(res@ =~= m0.union_prefer_right(all.restrict(ids@.take(i + 1).to_set())));
        }
        i = i + 1;
    }
    assert(ids@.take(i as int) =~= ids@);
    assert(all.restrict(ids@.to_set()) =~= all);
    res
}

} // verus!
