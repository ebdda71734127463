//! The barriers on their way, in the order of their epochs.
use crate::barrier::model::{BarrierCompleteResponse, BarrierEpochState, BarrierKind};
use crate::barrier::model::{CommandContext, EpochNode};
use std::collections::BTreeSet;
use vstd::prelude::*;

verus! {

broadcast use {
    vstd::std_specs::btree::group_btree_axioms,
    vstd::laws_cmp::group_laws_cmp,
};

/// The command whose barrier is collected and being completed.
#[derive(Clone, Copy, Debug, PartialEq, Eq, Structural)]
pub enum CompletingCommand {
    /// There is none.
    Idle,
    /// There is one.
    Completing(CommandContext),
    /// The last one failed.
    Failed,
}

/// The barriers on their way, and the one that is being completed.
#[derive(Debug)]
pub struct CheckpointControl {
    pub command_ctx_queue: Vec<EpochNode>,
    pub completing_command: CompletingCommand,
}

/// Each barrier starts at the epoch that the one before it ends at.
pub open spec fn chained(queue: Seq<EpochNode>) -> bool {
    &&& forall|i: int|
        0 <= i < queue.len() ==> (#[trigger] queue[i]).command_ctx.prev_epoch
            < queue[i].command_ctx.curr_epoch
    &&& forall|i: int, j: int|
        0 <= i && j == i + 1 && j < queue.len() ==> (#[trigger] queue[i]).command_ctx.curr_epoch
            == (#[trigger] queue[j]).command_ctx.prev_epoch
}

/// The barriers that some worker has still to answer.
pub open spec fn inflight_count(queue: Seq<EpochNode>) -> nat
    decreases queue.len(),
{
    if queue.len() == 0 {
        0
    } else {
        inflight_count(queue.drop_last()) + if queue.last().state.inflight() {
            1nat
        } else {
            0nat
        }
    }
}

/// The command at the end of the queue, or else the one that is being completed.
pub open spec fn latest(queue: Seq<EpochNode>, completing: CompletingCommand) -> Option<
    CommandContext,
> {
    if queue.len() > 0 {
        Some(queue.last().command_ctx)
    } else {
        match completing {
            CompletingCommand::Completing(command_ctx) => Some(command_ctx),
            _ => None,
        }
    }
}

/// The latest command lets no barrier be injected after it.
pub open spec fn pauses(queue: Seq<EpochNode>, completing: CompletingCommand) -> bool {
    latest(queue, completing) matches Some(command_ctx) && command_ctx.should_pause_inject_barrier
}

/// No command but the latest lets no barrier be injected after it.
pub open spec fn only_latest_pauses(queue: Seq<EpochNode>, completing: CompletingCommand) -> bool {
    &&& forall|i: int|
        0 <= i < queue.len() - 1 ==> !(
        #[trigger] queue[i]).command_ctx.should_pause_inject_barrier
    &&& queue.len() > 0 ==> (completing matches CompletingCommand::Completing(command_ctx)
        ==> !command_ctx.should_pause_inject_barrier)
}

/// The place of an epoch in the queue.
pub open spec fn place_of(queue: Seq<EpochNode>, prev_epoch: u64) -> Option<int>
    decreases queue.len(),
{
    if queue.len() == 0 {
        None
    } else if queue.last().command_ctx.prev_epoch == prev_epoch {
        Some(queue.len() - 1)
    } else {
        place_of(queue.drop_last(), prev_epoch)
    }
}

/// The answer of a worker is entered into a barrier.
pub open spec fn is_answered(
    before: EpochNode,
    after: EpochNode,
    worker_id: u32,
    resp: BarrierCompleteResponse,
) -> bool {
    &&& after.state.node_to_collect@ == before.state.node_to_collect@.remove(worker_id)
    &&& after.state.resps@ == before.state.resps@.push(resp)
    &&& after.command_ctx == before.command_ctx
    &&& after.kind == before.kind
    &&& after.notifiers == before.notifiers
}

proof fn lemma_place_of(queue: Seq<EpochNode>, prev_epoch: u64)
    ensures
        match place_of(queue, prev_epoch) {
            Some(i) => 0 <= i < queue.len() && queue[i].command_ctx.prev_epoch == prev_epoch,
            None => forall|i: int|
                0 <= i < queue.len() ==> (#[trigger] queue[i]).command_ctx.prev_epoch
                    != prev_epoch,
        },
    decreases queue.len(),
{
    if queue.len() > 0 && queue.last().command_ctx.prev_epoch != prev_epoch {
        lemma_place_of(queue.drop_last(), prev_epoch);
        if place_of(queue.drop_last(), prev_epoch) is None {
            assert forall|i: int| 0 <= i < queue.len() implies (
            #[trigger] queue[i]).command_ctx.prev_epoch != prev_epoch by {
                if i < queue.len() - 1 {
                    assert(queue.drop_last()[i] == queue[i]);
                }
            }
        }
    }
}

/// The epochs of the barriers on their way grow: a later barrier starts after an earlier one ends, or
/// where it ends.
pub proof fn lemma_epochs_grow(queue: Seq<EpochNode>, i: int, j: int)
    requires
        chained(queue),
        0 <= i < j < queue.len(),
    ensures
        queue[i].command_ctx.curr_epoch <= queue[j].command_ctx.prev_epoch,
        queue[i].command_ctx.prev_epoch < queue[j].command_ctx.prev_epoch,
    decreases j - i,
{
    assert(queue[i].command_ctx.curr_epoch == queue[i + 1].command_ctx.prev_epoch);
    if i + 1 < j {
        lemma_epochs_grow(queue, i + 1, j);
        assert(queue[i + 1].command_ctx.prev_epoch < queue[i + 1].command_ctx.curr_epoch);
    }
}

/// What comes next while the barriers are cleared after a failure.
#[derive(Debug)]
pub enum ClearAction {
    /// Wait for the command that is being completed.
    Join,
    /// Complete this collected barrier.
    Complete(EpochNode),
    /// Tell those that wait for these barriers that they failed; then all is clear.
    Fail(Vec<EpochNode>),
}

/// What has happened while the barriers are cleared.
#[derive(Clone, Copy, Debug, PartialEq, Eq, Structural)]
pub enum ClearEvent {
    /// Clearing starts.
    Start,
    /// The command that was being completed has ended, well or not.
    Joined(bool),
    /// The barrier that was to be completed has ended, well or not.
    Completed(bool),
}

impl CheckpointControl {
    /// The barriers are in order.
    pub open spec fn wf(&self) -> bool {
        &&& chained(self.command_ctx_queue@)
        &&& only_latest_pauses(self.command_ctx_queue@, self.completing_command)
    }

    /// No barrier is on its way.
    pub fn new() -> (res: CheckpointControl)
        ensures
            res.wf(),
            res.command_ctx_queue@.len() == 0,
            res.completing_command == CompletingCommand::Idle,
    {
        CheckpointControl {
            command_ctx_queue: Vec::new(),
            completing_command: CompletingCommand::Idle,
        }
    }

    /// How many commands are on their way or being completed.
    pub fn total_command_num(&self) -> (res: usize)
        requires
            self.command_ctx_queue.len() < usize::MAX,
        ensures
            res == self.command_ctx_queue@.len() + (if self.completing_command is Completing {
                1int
            } else {
                0int
            }),
    {
        self.command_ctx_queue.len() + match self.completing_command {
            CompletingCommand::Completing(_) => 1,
            _ => 0,
        }
    }

    /// How many barriers some worker has still to answer.
    pub fn in_flight_barrier_num(&self) -> (res: usize)
        ensures
            res == inflight_count(self.command_ctx_queue@),
    {
        let queue = &self.command_ctx_queue;
        let mut count: usize = 0;
        let mut i: usize = 0;
        assert(queue@.take(0) =~= Seq::<EpochNode>::empty());
        while i < queue.len()
            invariant
                i <= queue.len(),
                count <= i,
                count == inflight_count(queue@.take(i as int)),
            decreases queue.len() - i,
        {
            assert(queue@.take(i + 1).drop_last() =~= queue@.take(i as int));
            assert(queue@.take(i + 1).last() == queue@[i as int]);
            if queue[i].state.is_inflight() {
                count = count + 1;
            }
            i = i + 1;
        }
        assert(queue@.take(i as int) =~= queue@);
        count
    }

    /// Puts a barrier on its way: the given workers have to answer it.
    pub fn enqueue_command(
        &mut self,
        command_ctx: CommandContext,
        kind: BarrierKind,
        notifiers: Vec<u64>,
        node_to_collect: BTreeSet<u32>,
    )
        requires
            old(self).wf(),
            command_ctx.prev_epoch < command_ctx.curr_epoch,
            old(self).command_ctx_queue@.len() > 0
                ==> old(self).command_ctx_queue@.last().command_ctx.curr_epoch
                == command_ctx.prev_epoch,
            !pauses(old(self).command_ctx_queue@, old(self).completing_command),
        ensures
            final(self).wf(),
            final(self).completing_command == old(self).completing_command,
            final(self).command_ctx_queue@.len() == old(self).command_ctx_queue@.len() + 1,
            final(self).command_ctx_queue@.drop_last() == old(self).command_ctx_queue@,
            ({
                let node = final(self).command_ctx_queue@.last();
                &&& node.state.node_to_collect == node_to_collect
                &&& node.state.resps@.len() == 0
                &&& node.command_ctx == command_ctx
                &&& node.kind == kind
                &&& node.notifiers == notifiers
            }),
    {
        let ghost queue0 = self.command_ctx_queue@;
        let node = EpochNode {
            state: BarrierEpochState { node_to_collect, resps: Vec::new() },
            command_ctx,
            kind,
            notifiers,
        };
        self.command_ctx_queue.push(node);
        assert(self.command_ctx_queue@.drop_last() =~= queue0);
    }

    /// A worker has answered the barrier of an epoch.
    pub fn barrier_collected(
        &mut self,
        worker_id: u32,
        prev_epoch: u64,
        resp: BarrierCompleteResponse,
    )
        requires
            old(self).wf(),
            place_of(old(self).command_ctx_queue@, prev_epoch) matches Some(i)
                && old(self).command_ctx_queue@[i].state.node_to_collect@.contains(worker_id),
        ensures
            final(self).wf(),
            final(self).completing_command == old(self).completing_command,
            final(self).command_ctx_queue@.len() == old(self).command_ctx_queue@.len(),
            ({
                let place = place_of(old(self).command_ctx_queue@, prev_epoch)->Some_0;
                &&& is_answered(
                    old(self).command_ctx_queue@[place],
                    final(self).command_ctx_queue@[place],
                    worker_id,
                    resp,
                )
                &&& forall|j: int|
                    0 <= j < old(self).command_ctx_queue@.len() && j != place
                        ==> #[trigger] final(self).command_ctx_queue@[j]
                        == old(self).command_ctx_queue@[j]
            }),
    {
        let ghost queue0 = self.command_ctx_queue@;
        proof {
            lemma_place_of(queue0, prev_epoch);
        }
        let mut i: usize = self.command_ctx_queue.len();
        assert(queue0.take(i as int) =~= queue0);
        while i > 0 && self.command_ctx_queue[i - 1].command_ctx.prev_epoch != prev_epoch
            invariant
                i <= queue0.len(),
                self.command_ctx_queue@ == queue0,
                place_of(queue0, prev_epoch) == place_of(queue0.take(i as int), prev_epoch),
            decreases i,
        {
            assert(queue0.take(i as int).drop_last() =~= queue0.take(i - 1));
            i = i - 1;
        }
        assert(i > 0) by {
            if i == 0 {
                assert(queue0.take(0).len() == 0);
            }
        }
        assert(queue0.take(i as int).last() == queue0[i - 1]);
        let node = &mut self.command_ctx_queue[i - 1];
        node.state.node_to_collect.remove(&worker_id);
        node.state.resps.push(resp);
        proof {
            let queue = self.command_ctx_queue@;
            assert forall|a: int| 0 <= a < queue.len() implies (#[trigger] queue[a]).command_ctx
                == queue0[a].command_ctx by {}
            assert forall|a: int, b: int|
                0 <= a && b == a + 1 && b < queue.len() implies (
            #[trigger] queue[a]).command_ctx.curr_epoch == (
            #[trigger] queue[b]).command_ctx.prev_epoch by {
                assert(queue0[a].command_ctx.curr_epoch == queue0[b].command_ctx.prev_epoch);
            }
        }
    }

    /// Whether a barrier may be injected: not too many barriers are on their way, and no command
    /// holds further barriers back.
    pub fn can_inject_barrier(&self, in_flight_barrier_nums: usize) -> (res: bool)
        requires
            self.wf(),
        ensures
            res == (inflight_count(self.command_ctx_queue@) < in_flight_barrier_nums && !pauses(
                self.command_ctx_queue@,
                self.completing_command,
            )),
    {
        let in_flight_not_full: bool = self.in_flight_barrier_num() < in_flight_barrier_nums;
        let len: usize = self.command_ctx_queue.len();
        let should_pause: bool = if len > 0 {
            self.command_ctx_queue[len - 1].command_ctx.should_pause_inject_barrier
        } else {
            match self.completing_command {
                CompletingCommand::Completing(command_ctx) => command_ctx.should_pause_inject_barrier,
                _ => false,
            }
        };
        in_flight_not_full && !should_pause
    }

    /// Takes the earliest barrier off the queue if every worker has answered it.
    fn pop_collected(&mut self) -> (res: Option<EpochNode>)
        requires
            old(self).wf(),
            !(old(self).completing_command is Completing),
        ensures
            final(self).completing_command == old(self).completing_command,
            chained(final(self).command_ctx_queue@),
            forall|i: int|
                0 <= i < final(self).command_ctx_queue@.len() - 1 ==> !(
                #[trigger] final(self).command_ctx_queue@[i]).command_ctx.should_pause_inject_barrier,
            match res {
                Some(node) => {
                    &&& old(self).command_ctx_queue@.len() > 0
                    &&& !old(self).command_ctx_queue@[0].state.inflight()
                    &&& node == old(self).command_ctx_queue@[0]
                    &&& final(self).command_ctx_queue@ == old(self).command_ctx_queue@.skip(1)
                },
                None => {
                    &&& old(self).command_ctx_queue@.len() == 0 || old(self).command_ctx_queue@[0].state.inflight()
                    &&& final(self).command_ctx_queue@ == old(self).command_ctx_queue@
                },
            },
    {
        if self.command_ctx_queue.len() == 0 {
            return None;
        }
        if self.command_ctx_queue[0].state.is_inflight() {
            return None;
        }
        let ghost queue0 = self.command_ctx_queue@;
        let node = self.command_ctx_queue.remove(0);
        proof {
            let queue = self.command_ctx_queue@;
            assert(queue =~= queue0.skip(1));
            assert forall|a: int| 0 <= a < queue.len() implies #[trigger] queue[a] == queue0[a
                + 1] by {}
            assert forall|a: int, b: int|
                0 <= a && b == a + 1 && b < queue.len() implies (
            #[trigger] queue[a]).command_ctx.curr_epoch == (
            #[trigger] queue[b]).command_ctx.prev_epoch by {
                assert(queue0[a + 1].command_ctx.curr_epoch == queue0[b
                    + 1].command_ctx.prev_epoch);
            }
        }
        Some(node)
    }

    /// Starts completing the earliest barrier, if every worker has answered it and no other barrier is
    /// being completed.
    pub fn start_completing(&mut self) -> (res: Option<EpochNode>)
        requires
            old(self).wf(),
        ensures
            final(self).wf(),
            match res {
                Some(node) => {
                    &&& old(self).completing_command == CompletingCommand::Idle
                    &&& old(self).command_ctx_queue@.len() > 0
                    &&& !old(self).command_ctx_queue@[0].state.inflight()
                    &&& node == old(self).command_ctx_queue@[0]
                    &&& final(self).command_ctx_queue@ == old(self).command_ctx_queue@.skip(1)
                    &&& final(self).completing_command == CompletingCommand::Completing(
                        node.command_ctx,
                    )
                },
                None => {
                    &&& old(self).completing_command != CompletingCommand::Idle || old(self).command_ctx_queue@.len() == 0 || old(self).command_ctx_queue@[0].state.inflight()
                    &&& final(self).command_ctx_queue@ == old(self).command_ctx_queue@
                    &&& final(self).completing_command == old(self).completing_command
                },
            },
    {
        match self.completing_command {
            CompletingCommand::Idle => {},
            _ => {
                return None;
            },
        }
        match self.pop_collected() {
            Some(node) => {
                self.completing_command = CompletingCommand::Completing(node.command_ctx);
                Some(node)
            },
            None => None,
        }
    }

    /// The barrier that was being completed has ended, well or not.
    pub fn finish_completing(&mut self, ok: bool)
        requires
            old(self).wf(),
            old(self).completing_command is Completing,
        ensures
            final(self).wf(),
            final(self).command_ctx_queue@ == old(self).command_ctx_queue@,
            final(self).completing_command == (if ok {
                CompletingCommand::Idle
            } else {
                CompletingCommand::Failed
            }),
    {
        if ok {
            self.completing_command = CompletingCommand::Idle;
        } else {
            self.completing_command = CompletingCommand::Failed;
        }
    }

    /// Takes all barriers off the queue.
    fn take_all(&mut self) -> (res: Vec<EpochNode>)
        ensures
            res@ == old(self).command_ctx_queue@,
            final(self).command_ctx_queue@.len() == 0,
            final(self).completing_command == old(self).completing_command,
    {
        let mut res: Vec<EpochNode> = Vec::new();
        res.append(&mut self.command_ctx_queue);
        assert(res@ =~= old(self).command_ctx_queue@);
        res
    }

    /// The next step while the barriers are cleared after a failure. The command that is being
    /// completed is waited for. Unless that or an earlier one failed, the barriers that are collected
    /// are completed, the earliest first; all others fail.
    pub fn clear_on_err(&mut self, event: ClearEvent) -> (res: ClearAction)
        requires
            old(self).wf(),
            event != ClearEvent::Start ==> old(self).completing_command == CompletingCommand::Idle,
        ensures
            final(self).wf(),
            final(self).completing_command == CompletingCommand::Idle,
            ({
                let failed = match event {
                    ClearEvent::Start => old(self).completing_command == CompletingCommand::Failed,
                    ClearEvent::Joined(ok) => !ok,
                    ClearEvent::Completed(ok) => !ok,
                };
                let queue = old(self).command_ctx_queue@;
                if event == ClearEvent::Start && old(self).completing_command is Completing {
                    res is Join && final(self).command_ctx_queue@ == queue
                } else if !failed && queue.len() > 0 && !queue[0].state.inflight() {
                    &&& res matches ClearAction::Complete(node) && node == queue[0]
                    &&& final(self).command_ctx_queue@ == queue.skip(1)
                } else {
                    &&& res matches ClearAction::Fail(nodes) && nodes@ == queue
                    &&& final(self).command_ctx_queue@.len() == 0
                }
            }),
    {
        let completing = self.completing_command;
        self.completing_command = CompletingCommand::Idle;
        let failed: bool = match event {
            ClearEvent::Start => match completing {
                CompletingCommand::Completing(_) => {
                    return ClearAction::Join;
                },
                CompletingCommand::Failed => true,
                CompletingCommand::Idle => false,
            },
            ClearEvent::Joined(ok) => !ok,
            ClearEvent::Completed(ok) => !ok,
        };
        if !failed {
            if let Some(node) = self.pop_collected() {
                return ClearAction::Complete(node);
            }
        }
        ClearAction::Fail(self.take_all())
    }
}

/// Clearing ends: each barrier that is completed leaves the queue shorter, and when the rest has
/// failed no barrier is left, so that nothing is on its way when the recovery starts.
pub proof fn lemma_clear_ends(before: Seq<EpochNode>, after: Seq<EpochNode>)
    requires
        before.len() > 0,
        after == before.skip(1),
    ensures
        after.len() < before.len(),
        chained(before) ==> chained(after),
{
    if chained(before) {
        assert forall|a: int| 0 <= a < after.len() implies #[trigger] after[a] == before[a + 1] by {}
        assert forall|a: int, b: int| 0 <= a && b == a + 1 && b < after.len() implies (
        #[trigger] after[a]).command_ctx.curr_epoch == (
        #[trigger] after[b]).command_ctx.prev_epoch by {
            assert(before[a + 1].command_ctx.curr_epoch == before[b + 1].command_ctx.prev_epoch);
        }
    }
}

} // verus!
