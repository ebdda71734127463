//! The barrier manager: which barrier comes next, and what it does at each event.
use crate::barrier::checkpoint::{inflight_count, is_answered, pauses, place_of, CheckpointControl};
use crate::barrier::checkpoint::CompletingCommand;
use crate::barrier::model::{BarrierCompleteResponse, BarrierKind, CommandContext, PausedReason};
use std::collections::BTreeMap;
use std::collections::BTreeSet;
use vstd::prelude::*;

verus! {

broadcast use {
    vstd::std_specs::btree::group_btree_axioms,
    vstd::laws_cmp::group_laws_cmp,
};

/// A map by table.
#[derive(Debug)]
pub struct TableMap<T> {
    pub inner: BTreeMap<u32, T>,
}

impl<T> TableMap<T> {
    /// Takes the value of a table out of the map.
    pub fn remove(&mut self, table_id: u32) -> (res: Option<T>)
        ensures
            final(self).inner@ == old(self).inner@.remove(table_id),
            match res {
                Some(x) => old(self).inner@.contains_key(table_id) && x == old(self).inner@[table_id],
                None => !old(self).inner@.contains_key(table_id),
            },
    {
        self.inner.remove(&table_id)
    }
}

/// Why the cluster is recovering.
#[derive(Debug)]
pub enum RecoveryReason {
    /// After bootstrap.
    Bootstrap,
    /// After the given failure.
    Failover(String),
    /// By request.
    Adhoc,
}

/// What the barrier manager is doing.
#[derive(Debug)]
pub enum BarrierManagerStatus {
    Starting,
    Recovering(RecoveryReason),
    Running,
}

/// Why the barrier manager takes no command.
#[derive(Debug)]
pub enum StatusError {
    /// The cluster is bootstrapping.
    Bootstrapping,
    /// The cluster is recovering from the given failure.
    Recovering(String),
    /// The cluster is recovering by request.
    RecoveringAdhoc,
}

impl BarrierManagerStatus {
    /// Whether commands are taken, and if not, why.
    pub fn check_status_running(&self) -> (res: Result<(), StatusError>)
        ensures
            match self {
                BarrierManagerStatus::Starting => res matches Err(e) && e is Bootstrapping,
                BarrierManagerStatus::Recovering(RecoveryReason::Bootstrap) => res matches Err(e)
                    && e is Bootstrapping,
                BarrierManagerStatus::Recovering(RecoveryReason::Failover(err)) => res matches Err(
                    StatusError::Recovering(e),
                ) && e@ == err@,
                BarrierManagerStatus::Recovering(RecoveryReason::Adhoc) => res matches Err(e)
                    && e is RecoveringAdhoc,
                BarrierManagerStatus::Running => res is Ok,
            },
    {
        match self {
            BarrierManagerStatus::Starting => Err(StatusError::Bootstrapping),
            BarrierManagerStatus::Recovering(reason) => match reason {
                RecoveryReason::Bootstrap => Err(StatusError::Bootstrapping),
                RecoveryReason::Failover(e) => Err(StatusError::Recovering(e.clone())),
                RecoveryReason::Adhoc => Err(StatusError::RecoveringAdhoc),
            },
            BarrierManagerStatus::Running => Ok(()),
        }
    }
}

/// What the barrier rules need to know of a command.
#[derive(Clone, Copy, Debug, PartialEq, Eq, Structural)]
pub struct Command {
    pub should_pause_inject_barrier: bool,
    pub need_checkpoint: bool,
    pub table_to_cancel: Option<u32>,
}

/// What those that wait for a barrier are told when it is injected.
#[derive(Clone, Copy, Debug, PartialEq, Eq, Structural)]
pub struct BarrierInfo {
    pub prev_epoch: u64,
    pub curr_epoch: u64,
    pub prev_paused_reason: Option<PausedReason>,
    pub curr_paused_reason: Option<PausedReason>,
}

/// Something that the barrier manager hears of.
#[derive(Debug)]
pub enum Event {
    /// It is to stop.
    Shutdown,
    /// A worker came, changed or went.
    WorkerChanged { gone: bool },
    /// The interval of barriers or the frequency of checkpoints changed.
    SystemParamsChanged { barrier_interval_ms: u32, checkpoint_frequency: u64 },
    /// A recovery was requested.
    AdhocRecovery,
    /// Something that does not concern it.
    OtherNotification,
    /// A worker answered a barrier.
    Collected { worker_id: u32, prev_epoch: u64, resp: BarrierCompleteResponse },
    /// A worker failed to.
    CollectFailed { error: String },
    /// The earliest barrier was completed.
    Completed { require_next_checkpoint: bool },
    /// It could not be completed.
    CompleteFailed { error: String },
    /// A barrier that was prepared could not be injected.
    InjectFailed { error: String },
}

/// What the barrier manager does next.
#[derive(Debug)]
pub enum Action {
    /// Stop.
    Stop,
    /// Look at the workers again, and connect to the one that changed unless it is gone.
    ResolveWorkers { connect: bool },
    /// Schedule barriers at the given interval and frequency.
    Reschedule { min_interval_ms: u64, checkpoint_frequency: u64 },
    /// Clear the barriers and recover.
    Recover(RecoveryReason),
    /// Make the next barrier a checkpoint.
    ForceCheckpoint,
    /// Nothing.
    Nothing,
}

/// The barrier manager.
#[derive(Debug)]
pub struct GlobalBarrierManager {
    pub enable_recovery: bool,
    pub in_flight_barrier_nums: usize,
    pub status: BarrierManagerStatus,
    /// The epoch that the next barrier starts at.
    pub in_flight_prev_epoch: u64,
    pub paused_reason: Option<PausedReason>,
    pub checkpoint_control: CheckpointControl,
    /// Where the barriers since the last checkpoint started.
    pub pending_non_checkpoint_barriers: Vec<u64>,
}

impl GlobalBarrierManager {
    /// The barriers on their way are in order and end where the next one starts.
    pub open spec fn wf(&self) -> bool {
        &&& self.checkpoint_control.wf()
        &&& self.checkpoint_control.command_ctx_queue@.len() > 0
            ==> self.checkpoint_control.command_ctx_queue@.last().command_ctx.curr_epoch
            == self.in_flight_prev_epoch
    }

    /// A barrier has been prepared and is to be injected now.
    pub open spec fn injecting(&self, command_ctx: CommandContext) -> bool {
        &&& self.checkpoint_control.wf()
        &&& !pauses(
            self.checkpoint_control.command_ctx_queue@,
            self.checkpoint_control.completing_command,
        )
        &&& command_ctx.prev_epoch < command_ctx.curr_epoch
        &&& self.in_flight_prev_epoch == command_ctx.curr_epoch
        &&& self.checkpoint_control.command_ctx_queue@.len() > 0
            ==> self.checkpoint_control.command_ctx_queue@.last().command_ctx.curr_epoch
            == command_ctx.prev_epoch
    }

    /// A barrier manager that has not started yet.
    pub fn new(enable_recovery: bool, in_flight_barrier_nums: usize, invalid_epoch: u64) -> (res:
        GlobalBarrierManager)
        ensures
            res.wf(),
            res.enable_recovery == enable_recovery,
            res.in_flight_barrier_nums == in_flight_barrier_nums,
            res.status is Starting,
            res.in_flight_prev_epoch == invalid_epoch,
            res.paused_reason is None,
            res.checkpoint_control.command_ctx_queue@.len() == 0,
            res.checkpoint_control.completing_command == CompletingCommand::Idle,
            res.pending_non_checkpoint_barriers@.len() == 0,
    {
        GlobalBarrierManager {
            enable_recovery,
            in_flight_barrier_nums,
            status: BarrierManagerStatus::Starting,
            in_flight_prev_epoch: invalid_epoch,
            paused_reason: None,
            checkpoint_control: CheckpointControl::new(),
            pending_non_checkpoint_barriers: Vec::new(),
        }
    }

    /// Whether the manager may start: without recovery no job may exist yet.
    pub fn may_start(&self, job_exist: bool) -> (res: bool)
        ensures
            res == (self.enable_recovery || !job_exist),
    {
        self.enable_recovery || !job_exist
    }

    /// Whether a barrier may be injected now.
    pub fn can_inject_barrier(&self) -> (res: bool)
        requires
            self.wf(),
        ensures
            res == (inflight_count(self.checkpoint_control.command_ctx_queue@)
                < self.in_flight_barrier_nums && !pauses(
                self.checkpoint_control.command_ctx_queue@,
                self.checkpoint_control.completing_command,
            )),
    {
        self.checkpoint_control.can_inject_barrier(self.in_flight_barrier_nums)
    }

    /// Prepares the barrier of a command: it goes from the epoch at which the last one ended to
    /// `curr_epoch`. A checkpoint commits all epochs since the last checkpoint.
    pub fn prepare_barrier(&mut self, command: Command, checkpoint: bool, curr_epoch: u64) -> (res: (
        CommandContext,
        BarrierKind,
    ))
        requires
            old(self).wf(),
            old(self).in_flight_prev_epoch < curr_epoch,
            !pauses(
                old(self).checkpoint_control.command_ctx_queue@,
                old(self).checkpoint_control.completing_command,
            ),
        ensures
            final(self).injecting(res.0),
            res.0 == (CommandContext {
                prev_epoch: old(self).in_flight_prev_epoch,
                curr_epoch,
                should_pause_inject_barrier: command.should_pause_inject_barrier,
                need_checkpoint: command.need_checkpoint,
                table_to_cancel: command.table_to_cancel,
            }),
            ({
                let pending = old(self).pending_non_checkpoint_barriers@.push(
                    old(self).in_flight_prev_epoch,
                );
                if checkpoint {
                    &&& res.1 matches BarrierKind::Checkpoint(epochs) && epochs@ == pending
                    &&& final(self).pending_non_checkpoint_barriers@.len() == 0
                } else {
                    &&& res.1 is Barrier
                    &&& final(self).pending_non_checkpoint_barriers@ == pending
                }
            }),
            final(self).checkpoint_control == old(self).checkpoint_control,
            final(self).enable_recovery == old(self).enable_recovery,
            final(self).in_flight_barrier_nums == old(self).in_flight_barrier_nums,
            final(self).status == old(self).status,
            final(self).paused_reason == old(self).paused_reason,
    {
        let prev_epoch: u64 = self.in_flight_prev_epoch;
        self.in_flight_prev_epoch = curr_epoch;
        self.pending_non_checkpoint_barriers.push(prev_epoch);
        let kind = if checkpoint {
            let mut epochs: Vec<u64> = Vec::new();
            epochs.append(&mut self.pending_non_checkpoint_barriers);
            assert(epochs@ =~= old(self).pending_non_checkpoint_barriers@.push(prev_epoch));
            BarrierKind::Checkpoint(epochs)
        } else {
            BarrierKind::Barrier
        };
        let command_ctx = CommandContext {
            prev_epoch,
            curr_epoch,
            should_pause_inject_barrier: command.should_pause_inject_barrier,
            need_checkpoint: command.need_checkpoint,
            table_to_cancel: command.table_to_cancel,
        };
        (command_ctx, kind)
    }

    /// The prepared barrier was injected, and the given workers have to answer it; or it could not be
    /// injected, and those that wait for it are to be told so. Then the event of the failure is to be handled.
    pub fn handle_injected(
        &mut self,
        command_ctx: CommandContext,
        kind: BarrierKind,
        notifiers: Vec<u64>,
        injected: Option<BTreeSet<u32>>,
        curr_paused_reason: Option<PausedReason>,
    ) -> (res: Result<BarrierInfo, Vec<u64>>)
        requires
            old(self).injecting(command_ctx),
        ensures
            final(self).checkpoint_control.wf(),
            match injected {
                Some(node_to_collect) => {
                    &&& final(self).wf()
                    &&& res matches Ok(info) && info == (BarrierInfo {
                        prev_epoch: command_ctx.prev_epoch,
                        curr_epoch: command_ctx.curr_epoch,
                        prev_paused_reason: old(self).paused_reason,
                        curr_paused_reason,
                    })
                    &&& final(self).paused_reason == curr_paused_reason
                    &&& final(self).checkpoint_control.command_ctx_queue@.drop_last() == old(self).checkpoint_control.command_ctx_queue@
                    &&& ({
                        let node = final(self).checkpoint_control.command_ctx_queue@.last();
                        &&& node.state.node_to_collect == node_to_collect
                        &&& node.state.resps@.len() == 0
                        &&& node.command_ctx == command_ctx
                        &&& node.kind == kind
                        &&& node.notifiers == notifiers
                    })
                },
                None => {
                    &&& res matches Err(told) && told == notifiers
                    &&& final(self).checkpoint_control == old(self).checkpoint_control
                    &&& final(self).paused_reason == old(self).paused_reason
                },
            },
            final(self).checkpoint_control.completing_command == old(self).checkpoint_control.completing_command,
            final(self).in_flight_prev_epoch == old(self).in_flight_prev_epoch,
            final(self).pending_non_checkpoint_barriers == old(self).pending_non_checkpoint_barriers,
            final(self).enable_recovery == old(self).enable_recovery,
            final(self).in_flight_barrier_nums == old(self).in_flight_barrier_nums,
            final(self).status == old(self).status,
    {
        match injected {
            Some(node_to_collect) => {
                let prev_paused_reason = self.paused_reason;
                let info = BarrierInfo {
                    prev_epoch: command_ctx.prev_epoch,
                    curr_epoch: command_ctx.curr_epoch,
                    prev_paused_reason,
                    curr_paused_reason,
                };
                self.paused_reason = curr_paused_reason;
                self.checkpoint_control.enqueue_command(
                    command_ctx,
                    kind,
                    notifiers,
                    node_to_collect,
                );
                Ok(info)
            },
            None => Err(notifiers),
        }
    }

    /// What to do at an event. The answer of a worker is entered; the barrier that was being completed
    /// makes room for the next. After a failure the manager recovers.
    pub fn handle_event(&mut self, event: Event) -> (res: Action)
        requires
            old(self).checkpoint_control.wf(),
            !(event is InjectFailed) ==> old(self).wf(),
            event matches Event::Collected { worker_id, prev_epoch, .. } ==> (place_of(
                old(self).checkpoint_control.command_ctx_queue@,
                prev_epoch,
            ) matches Some(i) && old(self).checkpoint_control.command_ctx_queue@[i].state.node_to_collect@.contains(worker_id)),
            event is Completed || event is CompleteFailed
                ==> old(self).checkpoint_control.completing_command is Completing,
        ensures
            final(self).checkpoint_control.wf(),
            old(self).wf() ==> final(self).wf(),
            final(self).enable_recovery == old(self).enable_recovery,
            final(self).in_flight_barrier_nums == old(self).in_flight_barrier_nums,
            final(self).status == old(self).status,
            final(self).in_flight_prev_epoch == old(self).in_flight_prev_epoch,
            final(self).paused_reason == old(self).paused_reason,
            final(self).pending_non_checkpoint_barriers == old(self).pending_non_checkpoint_barriers,
            match event {
                Event::Collected { worker_id, prev_epoch, resp } => {
                    let queue = old(self).checkpoint_control.command_ctx_queue@;
                    let place = place_of(queue, prev_epoch)->Some_0;
                    let after = final(self).checkpoint_control.command_ctx_queue@;
                    &&& res is Nothing
                    &&& after.len() == queue.len()
                    &&& is_answered(queue[place], after[place], worker_id, resp)
                    &&& forall|j: int|
                        0 <= j < queue.len() && j != place ==> #[trigger] after[j] == queue[j]
                    &&& final(self).checkpoint_control.completing_command == old(self).checkpoint_control.completing_command
                },
                _ => final(self).checkpoint_control.command_ctx_queue@ == old(self).checkpoint_control.command_ctx_queue@,
            },
            match event {
                Event::Completed { .. } => final(self).checkpoint_control.completing_command
                    == CompletingCommand::Idle,
                Event::CompleteFailed { .. } => final(self).checkpoint_control.completing_command
                    == CompletingCommand::Failed,
                _ => final(self).checkpoint_control.completing_command == old(self).checkpoint_control.completing_command,
            },
            match event {
                Event::Shutdown => res is Stop,
                Event::WorkerChanged { gone } => res == (Action::ResolveWorkers { connect: !gone }),
                Event::SystemParamsChanged { barrier_interval_ms, checkpoint_frequency } => res == (
                Action::Reschedule {
                    min_interval_ms: barrier_interval_ms as u64,
                    checkpoint_frequency,
                }),
                Event::AdhocRecovery => res matches Action::Recover(reason) && reason is Adhoc,
                Event::OtherNotification => res is Nothing,
                Event::Collected { .. } => res is Nothing,
                Event::CollectFailed { error } => res == Action::Recover(
                    RecoveryReason::Failover(error),
                ),
                Event::Completed { require_next_checkpoint } => if require_next_checkpoint {
                    res is ForceCheckpoint
                } else {
                    res is Nothing
                },
                Event::CompleteFailed { error } => res == Action::Recover(
                    RecoveryReason::Failover(error),
                ),
                Event::InjectFailed { error } => res == Action::Recover(
                    RecoveryReason::Failover(error),
                ),
            },
    {
        match event {
            Event::Shutdown => Action::Stop,
            Event::WorkerChanged { gone } => Action::ResolveWorkers { connect: !gone },
            Event::SystemParamsChanged {
                barrier_interval_ms,
                checkpoint_frequency,
            } => Action::Reschedule {
                min_interval_ms: barrier_interval_ms as u64,
                checkpoint_frequency,
            },
            Event::AdhocRecovery => Action::Recover(RecoveryReason::Adhoc),
            Event::OtherNotification => Action::Nothing,
            Event::Collected { worker_id, prev_epoch, resp } => {
                let ghost queue = self.checkpoint_control.command_ctx_queue@;
                self.checkpoint_control.barrier_collected(worker_id, prev_epoch, resp);
                proof {
                    let after = self.checkpoint_control.command_ctx_queue@;
                    if queue.len() > 0 {
                        let last = queue.len() - 1;
                        assert(after[last].command_ctx == queue[last].command_ctx);
                    }
                }
                Action::Nothing
            },
            Event::CollectFailed { error } | Event::InjectFailed { error } => Action::Recover(
                RecoveryReason::Failover(error),
            ),
            Event::Completed { require_next_checkpoint } => {
                self.checkpoint_control.finish_completing(true);
                if require_next_checkpoint {
                    Action::ForceCheckpoint
                } else {
                    Action::Nothing
                }
            },
            Event::CompleteFailed { error } => {
                self.checkpoint_control.finish_completing(false);
                Action::Recover(RecoveryReason::Failover(error))
            },
        }
    }

    /// A recovery begins, once no barrier is on its way any more. After a failure the epochs that
    /// wait for a checkpoint are forgotten.
    pub fn begin_recovery(&mut self, reason: RecoveryReason)
        requires
            old(self).checkpoint_control.wf(),
            old(self).checkpoint_control.command_ctx_queue@.len() == 0,
            reason is Bootstrap || old(self).enable_recovery,
        ensures
            final(self).wf(),
            final(self).status == BarrierManagerStatus::Recovering(reason),
            if reason is Failover {
                final(self).pending_non_checkpoint_barriers@.len() == 0
            } else {
                final(self).pending_non_checkpoint_barriers == old(self).pending_non_checkpoint_barriers
            },
            final(self).checkpoint_control == old(self).checkpoint_control,
            final(self).enable_recovery == old(self).enable_recovery,
            final(self).in_flight_barrier_nums == old(self).in_flight_barrier_nums,
            final(self).in_flight_prev_epoch == old(self).in_flight_prev_epoch,
            final(self).paused_reason == old(self).paused_reason,
    {
        match &reason {
            RecoveryReason::Failover(_) => {
                self.pending_non_checkpoint_barriers.clear();
            },
            _ => {},
        }
        self.status = BarrierManagerStatus::Recovering(reason);
    }

    /// The recovery has injected its first barrier, which ended at the given epoch: commands are taken
    /// again.
    pub fn end_recovery(&mut self, epoch: u64, paused_reason: Option<PausedReason>)
        requires
            old(self).wf(),
            old(self).status is Recovering,
            old(self).checkpoint_control.command_ctx_queue@.len() == 0,
        ensures
            final(self).wf(),
            final(self).status is Running,
            final(self).in_flight_prev_epoch == epoch,
            final(self).paused_reason == paused_reason,
            final(self).checkpoint_control == old(self).checkpoint_control,
            final(self).pending_non_checkpoint_barriers == old(self).pending_non_checkpoint_barriers,
            final(self).enable_recovery == old(self).enable_recovery,
            final(self).in_flight_barrier_nums == old(self).in_flight_barrier_nums,
    {
        self.in_flight_prev_epoch = epoch;
        self.paused_reason = paused_reason;
        self.status = BarrierManagerStatus::Running;
    }
}

/// The reason for pausing at the start: by hand, where that was asked for.
pub fn bootstrap_paused_reason(paused: bool) -> (res: Option<PausedReason>)
    ensures
        res == (if paused {
            Some(PausedReason::Manual)
        } else {
            None
        }),
{
    if paused {
        Some(PausedReason::Manual)
    } else {
        None
    }
}

/// Two barriers that are prepared one after the other are chained: the second starts at the epoch
/// that the first ends at, so that every epoch lies under exactly one barrier.
pub proof fn lemma_barriers_chain(
    between: GlobalBarrierManager,
    first: CommandContext,
    second: CommandContext,
)
    requires
        between.injecting(first),
        second.prev_epoch == between.in_flight_prev_epoch,
        second.prev_epoch < second.curr_epoch,
    ensures
        first.curr_epoch == second.prev_epoch,
        first.prev_epoch < second.prev_epoch,
{
}

} // verus!
