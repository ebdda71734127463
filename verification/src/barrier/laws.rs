//! Barriers follow each other without gaps, are answered one worker at a time, and are completed in their order.
use crate::barrier::checkpoint::{
    inflight_count, place_of, CheckpointControl, ClearAction, ClearEvent, CompletingCommand,
};
use crate::barrier::manager::{
    Action, BarrierInfo, BarrierManagerStatus, Command, Event, GlobalBarrierManager, RecoveryReason,
    StatusError,
};
use crate::barrier::model::{
    BarrierCompleteResponse, BarrierKind, CommandContext, EpochNode, PausedReason,
};
use std::collections::BTreeSet;
use vstd::prelude::*;

verus! {

broadcast use {vstd::std_specs::btree::group_btree_axioms, vstd::laws_cmp::group_laws_cmp};

/// Of two barriers that are prepared one after the other the second starts where the first ends. If the first
/// commits nothing and the second is a checkpoint, it commits what waited before, the epoch of the first and its
/// own, in this order, and nothing waits any more.
pub proof fn lemma_prepared_one_after_the_other(
    m: &mut GlobalBarrierManager,
    n: &mut GlobalBarrierManager,
    a: Command,
    b: Command,
    checkpoint: bool,
    first_end: u64,
    second_end: u64,
    first: (CommandContext, BarrierKind),
    second: (CommandContext, BarrierKind),
)
    requires
        call_ensures(GlobalBarrierManager::prepare_barrier, (m, a, false, first_end), first),
        old(n).in_flight_prev_epoch == final(m).in_flight_prev_epoch,
        old(n).pending_non_checkpoint_barriers == final(m).pending_non_checkpoint_barriers,
        call_ensures(GlobalBarrierManager::prepare_barrier, (n, b, checkpoint, second_end), second),
    ensures
        first.0.prev_epoch == old(m).in_flight_prev_epoch,
        first.0.curr_epoch == first_end && second.0.prev_epoch == first_end,
        second.0.curr_epoch == second_end && final(n).in_flight_prev_epoch == second_end,
        first.1 == BarrierKind::Barrier,
        first.0.table_to_cancel == a.table_to_cancel,
        first.0.need_checkpoint == a.need_checkpoint,
        first.0.should_pause_inject_barrier == a.should_pause_inject_barrier,
        ({
            let waited = old(m).pending_non_checkpoint_barriers@;
            let both = waited + seq![first.0.prev_epoch, first_end];
            if checkpoint {
                &&& second.1 matches BarrierKind::Checkpoint(epochs) && epochs@ == both
                &&& final(n).pending_non_checkpoint_barriers@.len() == 0
            } else {
                &&& second.1 == BarrierKind::Barrier
                &&& final(n).pending_non_checkpoint_barriers@ == both
            }
        }),
{
    let waited = old(m).pending_non_checkpoint_barriers@;
    assert(waited.push(first.0.prev_epoch).push(first_end) =~= waited + seq![
        first.0.prev_epoch,
        first_end,
    ]);
}

/// A barrier that is injected goes behind all others and waits for exactly the workers that it was sent to; one that
/// could not be injected leaves the others as they are, and those who wait for it are told.
pub proof fn lemma_injected_last(
    m: &mut GlobalBarrierManager,
    command: CommandContext,
    kind: BarrierKind,
    notifiers: Vec<u64>,
    injected: Option<BTreeSet<u32>>,
    paused: Option<PausedReason>,
    res: Result<BarrierInfo, Vec<u64>>,
    i: int,
    worker: u32,
)
    requires
        call_ensures(
            GlobalBarrierManager::handle_injected,
            (m, command, kind, notifiers, injected, paused),
            res,
        ),
        final(m).checkpoint_control.command_ctx_queue@.len() > 0,
    ensures
        ({
            let before = old(m).checkpoint_control.command_ctx_queue@;
            let after = final(m).checkpoint_control.command_ctx_queue@;
            match injected {
                Some(workers) => {
                    &&& after.len() == before.len() + 1
                    &&& 0 <= i < before.len() ==> after[i] == before[i]
                    &&& after[before.len() as int].command_ctx == command
                    &&& after[before.len() as int].notifiers == notifiers
                    &&& after[before.len() as int].kind == kind
                    &&& after[before.len() as int].state.resps@.len() == 0
                    &&& after[before.len() as int].state.node_to_collect@.contains(worker)
                        <==> workers@.contains(worker)
                    &&& res matches Ok(info) && info.prev_epoch == command.prev_epoch
                        && info.curr_epoch == command.curr_epoch && info.prev_paused_reason
                        == old(m).paused_reason && info.curr_paused_reason == paused
                    &&& final(m).paused_reason == paused
                },
                None => {
                    &&& after == before
                    &&& res matches Err(told) && told@ == notifiers@
                    &&& final(m).paused_reason == old(m).paused_reason
                },
            }
        }),
{
    let before = old(m).checkpoint_control.command_ctx_queue@;
    let after = final(m).checkpoint_control.command_ctx_queue@;
    if injected is Some {
        assert(after.drop_last() == before);
        assert(after.drop_last().len() == after.len() - 1);
        if 0 <= i < before.len() {
            assert(after.drop_last()[i] == after[i]);
        }
    }
}

/// The answer of a worker goes to the barrier of the epoch: the worker has no longer to answer it, its answer stands
/// behind the others, and the other workers and the other barriers are as they were.
pub proof fn lemma_answer_entered(
    m: &mut GlobalBarrierManager,
    worker_id: u32,
    prev_epoch: u64,
    resp: BarrierCompleteResponse,
    res: Action,
    k: int,
    j: int,
    other: u32,
)
    requires
        call_ensures(
            GlobalBarrierManager::handle_event,
            (m, Event::Collected { worker_id, prev_epoch, resp }),
            res,
        ),
        0 <= k < old(m).checkpoint_control.command_ctx_queue@.len(),
        old(m).checkpoint_control.command_ctx_queue@[k].command_ctx.prev_epoch == prev_epoch,
        forall|l: int|
            k < l < old(m).checkpoint_control.command_ctx_queue@.len() ==> (#[trigger] old(
                m).checkpoint_control.command_ctx_queue@[l]).command_ctx.prev_epoch != prev_epoch,
        0 <= j < old(m).checkpoint_control.command_ctx_queue@.len(),
    ensures
        res is Nothing,
        ({
            let before = old(m).checkpoint_control.command_ctx_queue@;
            let after = final(m).checkpoint_control.command_ctx_queue@;
            &&& after.len() == before.len()
            &&& j != k ==> after[j] == before[j]
            &&& after[k].state.node_to_collect@.contains(other)
                <==> before[k].state.node_to_collect@.contains(other) && other != worker_id
            &&& after[k].state.resps@.len() == before[k].state.resps@.len() + 1
            &&& after[k].state.resps@[before[k].state.resps@.len() as int] == resp
            &&& after[k].state.resps@.take(before[k].state.resps@.len() as int)
                == before[k].state.resps@
            &&& after[k].command_ctx == before[k].command_ctx
            &&& after[k].notifiers == before[k].notifiers && after[k].kind == before[k].kind
        }),
{
    let before = old(m).checkpoint_control.command_ctx_queue@;
    let after = final(m).checkpoint_control.command_ctx_queue@;
    lemma_place_found(before, prev_epoch, k);
    assert(after[k].state.resps@.take(before[k].state.resps@.len() as int)
        =~= before[k].state.resps@);
}

proof fn lemma_place_found(queue: Seq<EpochNode>, prev_epoch: u64, k: int)
    requires
        0 <= k < queue.len(),
        queue[k].command_ctx.prev_epoch == prev_epoch,
        forall|l: int|
            k < l < queue.len() ==> (#[trigger] queue[l]).command_ctx.prev_epoch != prev_epoch,
    ensures
        place_of(queue, prev_epoch) == Some(k),
    decreases queue.len(),
{
    if k < queue.len() - 1 {
        assert(queue[queue.len() - 1].command_ctx.prev_epoch != prev_epoch);
        let rest = queue.drop_last();
        assert forall|l: int| k < l < rest.len() implies (
        #[trigger] rest[l]).command_ctx.prev_epoch != prev_epoch by {
            assert(rest[l] == queue[l]);
        }
        lemma_place_found(rest, prev_epoch, k);
    }
}

/// The places of the barriers that some worker has still to answer.
pub open spec fn unanswered(queue: Seq<EpochNode>) -> Set<int> {
    Set::new(
        |i: int| 0 <= i < queue.len() && exists|w: u32| #[trigger] queue[i].state.node_to_collect@.contains(w),
    )
}

proof fn lemma_unanswered(queue: Seq<EpochNode>)
    requires
        forall|i: int| 0 <= i < queue.len() ==> (#[trigger] queue[i]).state.node_to_collect@.finite(),
    ensures
        unanswered(queue).finite(),
        unanswered(queue).len() == inflight_count(queue),
    decreases queue.len(),
{
    if queue.len() == 0 {
        assert(unanswered(queue) =~= Set::empty());
    } else {
        let rest = queue.drop_last();
        let n = queue.len() - 1;
        assert forall|i: int| 0 <= i < rest.len() implies (
        #[trigger] rest[i]).state.node_to_collect@.finite() by {
            assert(rest[i] == queue[i]);
        }
        lemma_unanswered(rest);
        let left = queue[n].state.node_to_collect@;
        assert(queue[n].state.node_to_collect@.finite());
        if left.len() > 0 {
            assert(left.contains(left.choose()));
        } else {
            left.lemma_len0_is_empty();
        }
        assert(left.len() > 0 <==> exists|w: u32| #[trigger] left.contains(w));
        assert forall|i: int| 0 <= i < n implies (unanswered(queue).contains(i) <==> unanswered(
            rest,
        ).contains(i)) by {
            assert(rest[i] == queue[i]);
        }
        if queue.last().state.inflight() {
            assert(unanswered(queue) =~= unanswered(rest).insert(n));
        } else {
            assert(unanswered(queue) =~= unanswered(rest));
        }
    }
}

/// A barrier may be injected if and only if fewer barriers than allowed wait for a worker, and the command that was
/// sent last, or else the one that is being completed, lets another follow.
pub proof fn lemma_may_be_injected(control: &CheckpointControl, allowed: usize, res: bool)
    requires
        call_ensures(CheckpointControl::can_inject_barrier, (control, allowed), res),
        forall|i: int|
            0 <= i < control.command_ctx_queue@.len() ==> (
            #[trigger] control.command_ctx_queue@[i]).state.node_to_collect@.finite(),
    ensures
        ({
            let queue = control.command_ctx_queue@;
            let held = if queue.len() > 0 {
                queue[queue.len() - 1].command_ctx.should_pause_inject_barrier
            } else {
                control.completing_command matches CompletingCommand::Completing(c)
                    && c.should_pause_inject_barrier
            };
            res <==> unanswered(queue).len() < allowed && !held
        }),
{
    lemma_unanswered(control.command_ctx_queue@);
}

/// The barrier manager asks the same with the number that it was made with.
pub proof fn lemma_manager_may_inject(
    m: &GlobalBarrierManager,
    res: bool,
    by_control: bool,
)
    requires
        call_ensures(GlobalBarrierManager::can_inject_barrier, (m,), res),
        call_ensures(
            CheckpointControl::can_inject_barrier,
            (&m.checkpoint_control, m.in_flight_barrier_nums),
            by_control,
        ),
    ensures
        res == by_control,
{
}

/// The barrier that is completed is the earliest, and only when no other is being completed and every worker has
/// answered it. The barriers behind it move up.
pub proof fn lemma_earliest_completed(
    control: &mut CheckpointControl,
    res: Option<EpochNode>,
    i: int,
)
    requires
        call_ensures(CheckpointControl::start_completing, (control,), res),
        forall|i: int|
            0 <= i < old(control).command_ctx_queue@.len() ==> (#[trigger] old(
                control).command_ctx_queue@[i]).state.node_to_collect@.finite(),
    ensures
        ({
            let before = old(control).command_ctx_queue@;
            let after = final(control).command_ctx_queue@;
            &&& res is Some <==> before.len() > 0 && old(control).completing_command
                == CompletingCommand::Idle && forall|w: u32|
                !(#[trigger] before[0].state.node_to_collect@.contains(w))
            &&& res matches Some(node) ==> node == before[0] && after.len() == before.len() - 1 && (0
                <= i < after.len() ==> after[i] == before[i + 1])
                && final(control).completing_command == CompletingCommand::Completing(
                before[0].command_ctx,
            )
            &&& res is None ==> after == before && final(control).completing_command
                == old(control).completing_command
        }),
{
    let before = old(control).command_ctx_queue@;
    if before.len() > 0 {
        let left = before[0].state.node_to_collect@;
        assert(before[0].state.node_to_collect@.finite());
        if left.len() > 0 {
            assert(left.contains(left.choose()));
        } else {
            left.lemma_len0_is_empty();
        }
    }
}

/// Clearing waits for the command that is being completed, completes the barriers that every worker has answered
/// from the earliest on unless something failed, and then gives up all that are left.
pub proof fn lemma_cleared(control: &mut CheckpointControl, event: ClearEvent, res: ClearAction)
    requires
        call_ensures(CheckpointControl::clear_on_err, (control, event), res),
    ensures
        res is Join ==> event == ClearEvent::Start && old(control).completing_command is Completing
            && final(control).command_ctx_queue@ == old(control).command_ctx_queue@,
        res matches ClearAction::Complete(node) ==> old(control).command_ctx_queue@.len() > 0 && node
            == old(control).command_ctx_queue@[0] && node.state.node_to_collect@.len() == 0
            && final(control).command_ctx_queue@.len() + 1 == old(control).command_ctx_queue@.len(),
        res matches ClearAction::Fail(nodes) ==> nodes@ == old(control).command_ctx_queue@
            && final(control).command_ctx_queue@.len() == 0,
        event == ClearEvent::Joined(false) || event == ClearEvent::Completed(false) ==> res is Fail,
        event == ClearEvent::Start && old(control).completing_command == CompletingCommand::Failed
            ==> res is Fail,
        event == ClearEvent::Start && old(control).completing_command is Completing ==> res is Join,
        final(control).completing_command == CompletingCommand::Idle,
{
}

/// Commands are taken only while the manager runs; otherwise the answer says what it is doing instead.
pub proof fn lemma_runs(status: &BarrierManagerStatus, res: Result<(), StatusError>)
    requires
        call_ensures(BarrierManagerStatus::check_status_running, (status,), res),
    ensures
        res is Ok <==> *status is Running,
        (res matches Err(StatusError::RecoveringAdhoc)) <==> *status == BarrierManagerStatus::Recovering(
            RecoveryReason::Adhoc,
        ),
        res matches Err(StatusError::Recovering(e)) ==> (
        *status matches BarrierManagerStatus::Recovering(RecoveryReason::Failover(f)) && f@ == e@),
        (res matches Err(StatusError::Bootstrapping)) <==> *status is Starting || *status
            == BarrierManagerStatus::Recovering(RecoveryReason::Bootstrap),
{
}

/// After a failure of a worker, of a completion or of an injection the manager recovers from that failure, and
/// nothing else makes it do so but a request. A recovery from a failure forgets the epochs that wait for a
/// checkpoint.
pub proof fn lemma_recovers(
    m: &mut GlobalBarrierManager,
    event: Event,
    res: Action,
    n: &mut GlobalBarrierManager,
    reason: RecoveryReason,
)
    requires
        call_ensures(GlobalBarrierManager::handle_event, (m, event), res),
        call_ensures(GlobalBarrierManager::begin_recovery, (n, reason), ()),
    ensures
        res is Recover <==> event is CollectFailed || event is CompleteFailed || event is InjectFailed
            || event is AdhocRecovery,
        event matches Event::CollectFailed { error } ==> (res matches Action::Recover(
            RecoveryReason::Failover(e),
        ) && e@ == error@),
        event matches Event::CompleteFailed { error } ==> (res matches Action::Recover(
            RecoveryReason::Failover(e),
        ) && e@ == error@),
        event matches Event::InjectFailed { error } ==> (res matches Action::Recover(
            RecoveryReason::Failover(e),
        ) && e@ == error@),
        event is AdhocRecovery ==> (res matches Action::Recover(RecoveryReason::Adhoc)),
        event is Shutdown <==> res is Stop,
        event matches Event::WorkerChanged { gone } ==> (res matches Action::ResolveWorkers {
            connect,
        } && connect != gone),
        event matches Event::SystemParamsChanged { barrier_interval_ms, checkpoint_frequency } ==> (
        res matches Action::Reschedule { min_interval_ms, checkpoint_frequency: f } && min_interval_ms
            == barrier_interval_ms && f == checkpoint_frequency),
        res is ForceCheckpoint <==> (event matches Event::Completed { require_next_checkpoint }
            && require_next_checkpoint),
        reason is Failover ==> final(n).pending_non_checkpoint_barriers@.len() == 0,
        !(reason is Failover) ==> final(n).pending_non_checkpoint_barriers@
            == old(n).pending_non_checkpoint_barriers@,
        final(n).status == BarrierManagerStatus::Recovering(reason),
{
}

} // verus!
