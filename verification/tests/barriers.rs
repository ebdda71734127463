use risingwave_core::barrier::checkpoint::{
    CheckpointControl, ClearAction, ClearEvent, CompletingCommand,
};
use risingwave_core::barrier::commit::{
    collect_commit_epoch_info, collect_progress, finished_commands, get_ddl_progress,
    snapshot_update, CreatingTable, DdlProgress, SnapshotUpdate,
};
use risingwave_core::barrier::manager::{
    bootstrap_paused_reason, Action, BarrierManagerStatus, Command, Event, GlobalBarrierManager,
    RecoveryReason, StatusError, TableMap,
};
use risingwave_core::barrier::model::{
    BarrierCompleteResponse, BarrierKind, CommandContext, CreateMviewProgress, GroupedSstableInfo,
    PausedReason, SstableInfo,
};
use std::collections::{BTreeMap, BTreeSet};

fn command(pause: bool) -> Command {
    Command { should_pause_inject_barrier: pause, need_checkpoint: false, table_to_cancel: None }
}

fn answer(worker_id: u32) -> BarrierCompleteResponse {
    BarrierCompleteResponse {
        worker_id,
        create_mview_progress: vec![],
        synced_sstables: vec![],
        table_watermarks: BTreeMap::new(),
        old_value_sstables: vec![],
    }
}

fn workers(ids: &[u32]) -> BTreeSet<u32> {
    ids.iter().cloned().collect()
}

fn inject(
    manager: &mut GlobalBarrierManager,
    checkpoint: bool,
    epoch: u64,
    ids: &[u32],
) -> BarrierKind {
    let (ctx, kind) = manager.prepare_barrier(command(false), checkpoint, epoch);
    let epochs = match &kind {
        BarrierKind::Checkpoint(epochs) => BarrierKind::Checkpoint(epochs.clone()),
        BarrierKind::Barrier => BarrierKind::Barrier,
        BarrierKind::Initial => BarrierKind::Initial,
    };
    assert!(manager.handle_injected(ctx, kind, vec![epoch], Some(workers(ids)), None).is_ok());
    epochs
}

#[test]
fn checkpoints_commit_all_epochs_since_the_last() {
    let mut manager = GlobalBarrierManager::new(true, 10, 1);
    assert!(matches!(inject(&mut manager, false, 2, &[1]), BarrierKind::Barrier));
    assert!(matches!(inject(&mut manager, false, 3, &[1]), BarrierKind::Barrier));
    match inject(&mut manager, true, 5, &[1]) {
        BarrierKind::Checkpoint(epochs) => assert_eq!(epochs, vec![1, 2, 3]),
        _ => panic!("a checkpoint was asked for"),
    }
    match inject(&mut manager, true, 8, &[1]) {
        BarrierKind::Checkpoint(epochs) => assert_eq!(epochs, vec![5]),
        _ => panic!("a checkpoint was asked for"),
    }
    let pairs: Vec<(u64, u64)> = manager
        .checkpoint_control
        .command_ctx_queue
        .iter()
        .map(|n| (n.command_ctx.prev_epoch, n.command_ctx.curr_epoch))
        .collect();
    assert_eq!(pairs, vec![(1, 2), (2, 3), (3, 5), (5, 8)]);
}

#[test]
fn barriers_complete_in_order() {
    let mut manager = GlobalBarrierManager::new(true, 2, 1);
    inject(&mut manager, true, 2, &[1, 2]);
    inject(&mut manager, true, 3, &[1]);
    assert!(!manager.can_inject_barrier());
    // The later barrier is answered first.
    let action = manager.handle_event(Event::Collected {
        worker_id: 1,
        prev_epoch: 2,
        resp: answer(1),
    });
    assert!(matches!(action, Action::Nothing));
    assert!(manager.can_inject_barrier());
    assert!(manager.checkpoint_control.start_completing().is_none());
    for id in [1, 2] {
        manager.handle_event(Event::Collected { worker_id: id, prev_epoch: 1, resp: answer(id) });
    }
    let node = manager.checkpoint_control.start_completing().unwrap();
    assert_eq!(node.command_ctx.prev_epoch, 1);
    assert_eq!(node.state.resps.len(), 2);
    assert_eq!(manager.checkpoint_control.total_command_num(), 2);
    assert!(manager.checkpoint_control.start_completing().is_none());
    let action = manager.handle_event(Event::Completed { require_next_checkpoint: true });
    assert!(matches!(action, Action::ForceCheckpoint));
    let node = manager.checkpoint_control.start_completing().unwrap();
    assert_eq!(node.command_ctx.prev_epoch, 2);
    let action = manager.handle_event(Event::CompleteFailed { error: "e".to_string() });
    assert!(matches!(action, Action::Recover(RecoveryReason::Failover(e)) if e == "e"));
    assert_eq!(manager.checkpoint_control.completing_command, CompletingCommand::Failed);
}

#[test]
fn some_commands_pause_the_barriers() {
    let mut manager = GlobalBarrierManager::new(true, 10, 1);
    let (ctx, kind) = manager.prepare_barrier(command(true), true, 2);
    manager
        .handle_injected(ctx, kind, vec![], Some(workers(&[1])), Some(PausedReason::Manual))
        .unwrap();
    assert_eq!(manager.paused_reason, Some(PausedReason::Manual));
    assert!(!manager.can_inject_barrier());
    manager.handle_event(Event::Collected { worker_id: 1, prev_epoch: 1, resp: answer(1) });
    assert!(!manager.can_inject_barrier());
    assert!(manager.checkpoint_control.start_completing().is_some());
    assert!(!manager.can_inject_barrier());
    manager.handle_event(Event::Completed { require_next_checkpoint: false });
    assert!(manager.can_inject_barrier());
}

#[test]
fn barriers_that_cannot_be_injected_are_told() {
    let mut manager = GlobalBarrierManager::new(true, 10, 1);
    let (ctx, kind) = manager.prepare_barrier(command(false), false, 2);
    assert_eq!(manager.handle_injected(ctx, kind, vec![4, 5], None, None), Err(vec![4, 5]));
    assert!(manager.checkpoint_control.command_ctx_queue.is_empty());
    let action = manager.handle_event(Event::InjectFailed { error: "lost".to_string() });
    let reason = match action {
        Action::Recover(reason) => reason,
        _ => panic!("a failure is recovered from"),
    };
    assert!(matches!(&reason, RecoveryReason::Failover(e) if e == "lost"));
    assert_eq!(manager.pending_non_checkpoint_barriers, vec![1]);
    manager.begin_recovery(reason);
    assert!(manager.pending_non_checkpoint_barriers.is_empty());
    manager.end_recovery(7, None);
    assert!(manager.can_inject_barrier());
}

fn queue() -> CheckpointControl {
    let mut control = CheckpointControl::new();
    for (prev, curr, ids) in [(1u64, 2u64, &[][..]), (2, 3, &[1u32][..]), (3, 4, &[][..])] {
        let ctx = CommandContext {
            prev_epoch: prev,
            curr_epoch: curr,
            should_pause_inject_barrier: false,
            need_checkpoint: false,
            table_to_cancel: None,
        };
        control.enqueue_command(ctx, BarrierKind::Barrier, vec![], workers(ids));
    }
    control
}

#[test]
fn collected_barriers_are_completed_when_all_are_cleared() {
    let mut control = queue();
    assert_eq!(control.in_flight_barrier_num(), 1);
    match control.clear_on_err(ClearEvent::Start) {
        ClearAction::Complete(node) => assert_eq!(node.command_ctx.prev_epoch, 1),
        _ => panic!("the first barrier is collected"),
    }
    match control.clear_on_err(ClearEvent::Completed(true)) {
        ClearAction::Fail(nodes) => assert_eq!(nodes.len(), 2),
        _ => panic!("the second barrier is not collected"),
    }
    assert_eq!(control.total_command_num(), 0);
}

#[test]
fn nothing_is_completed_after_a_failure() {
    let mut control = queue();
    assert!(control.start_completing().is_some());
    assert!(matches!(control.clear_on_err(ClearEvent::Start), ClearAction::Join));
    match control.clear_on_err(ClearEvent::Joined(false)) {
        ClearAction::Fail(nodes) => assert_eq!(nodes.len(), 2),
        _ => panic!("all fail"),
    }
    let mut control = queue();
    assert!(control.start_completing().is_some());
    control.finish_completing(false);
    assert!(matches!(control.clear_on_err(ClearEvent::Start), ClearAction::Fail(_)));
}

#[test]
fn recoveries_begin_and_end() {
    let mut manager = GlobalBarrierManager::new(true, 10, 1);
    assert!(manager.may_start(true));
    assert!(!GlobalBarrierManager::new(false, 10, 1).may_start(true));
    assert!(GlobalBarrierManager::new(false, 10, 1).may_start(false));
    assert!(matches!(
        manager.status.check_status_running(),
        Err(StatusError::Bootstrapping)
    ));
    manager.begin_recovery(RecoveryReason::Bootstrap);
    assert!(matches!(
        manager.status.check_status_running(),
        Err(StatusError::Bootstrapping)
    ));
    manager.end_recovery(7, bootstrap_paused_reason(true));
    assert!(manager.status.check_status_running().is_ok());
    assert_eq!(manager.paused_reason, Some(PausedReason::Manual));
    assert_eq!(bootstrap_paused_reason(false), None);
    let _ = manager.prepare_barrier(command(false), false, 9);
    manager.begin_recovery(RecoveryReason::Adhoc);
    assert!(matches!(
        manager.status.check_status_running(),
        Err(StatusError::RecoveringAdhoc)
    ));
    assert_eq!(manager.pending_non_checkpoint_barriers, vec![7]);
    manager.begin_recovery(RecoveryReason::Failover("f".to_string()));
    assert!(manager.pending_non_checkpoint_barriers.is_empty());
    assert!(matches!(
        &manager.status,
        BarrierManagerStatus::Recovering(RecoveryReason::Failover(_))
    ));
    assert!(matches!(
        manager.status.check_status_running(),
        Err(StatusError::Recovering(e)) if e == "f"
    ));
}

#[test]
fn events_have_their_actions() {
    let mut manager = GlobalBarrierManager::new(true, 10, 1);
    assert!(matches!(manager.handle_event(Event::Shutdown), Action::Stop));
    assert!(matches!(
        manager.handle_event(Event::WorkerChanged { gone: true }),
        Action::ResolveWorkers { connect: false }
    ));
    assert!(matches!(
        manager.handle_event(Event::SystemParamsChanged {
            barrier_interval_ms: 250,
            checkpoint_frequency: 3
        }),
        Action::Reschedule { min_interval_ms: 250, checkpoint_frequency: 3 }
    ));
    assert!(matches!(
        manager.handle_event(Event::AdhocRecovery),
        Action::Recover(RecoveryReason::Adhoc)
    ));
    assert!(matches!(manager.handle_event(Event::OtherNotification), Action::Nothing));
    assert!(matches!(
        manager.handle_event(Event::CollectFailed { error: "x".to_string() }),
        Action::Recover(RecoveryReason::Failover(_))
    ));
}

#[test]
fn answers_are_gathered() {
    let mut first = answer(1);
    first.synced_sstables.push(GroupedSstableInfo {
        compaction_group_id: 2,
        sst: SstableInfo { object_id: 10, sst_id: 11, table_ids: vec![1] },
        table_stats_map: BTreeMap::new(),
    });
    first.create_mview_progress.push(CreateMviewProgress {
        backfill_actor_id: 3,
        done: true,
        consumed_epoch: 4,
        consumed_rows: 5,
    });
    let mut second = answer(2);
    second.old_value_sstables.push(SstableInfo { object_id: 20, sst_id: 21, table_ids: vec![] });
    second.table_watermarks.insert(6, vec![1]);
    let resps = vec![first, second];
    assert_eq!(collect_progress(&resps).len(), 1);
    let mut subscriptions: BTreeMap<u32, BTreeMap<u32, u64>> = BTreeMap::new();
    subscriptions.insert(8, [(1, 30), (2, 50)].into_iter().collect());
    subscriptions.insert(9, BTreeMap::new());
    let info = collect_commit_epoch_info(resps, None, &subscriptions);
    assert_eq!(info.sstables.len(), 1);
    assert_eq!(info.sst_to_worker.get(&10), Some(&1));
    assert_eq!(info.new_table_watermarks.len(), 2);
    assert_eq!(info.old_value_ssts.len(), 1);
    assert_eq!(info.max_retentions, vec![(8, 50)]);
    assert!(info.new_table_fragment_info.is_none());
}

#[test]
fn snapshots_follow_the_kind_of_the_barrier() {
    let ctx = CommandContext {
        prev_epoch: 4,
        curr_epoch: 5,
        should_pause_inject_barrier: false,
        need_checkpoint: false,
        table_to_cancel: None,
    };
    assert!(matches!(snapshot_update(ctx, BarrierKind::Initial), SnapshotUpdate::Keep));
    assert!(matches!(
        snapshot_update(ctx, BarrierKind::Barrier),
        SnapshotUpdate::UpdateCurrent { prev_epoch: 4 }
    ));
    assert!(matches!(
        snapshot_update(ctx, BarrierKind::Checkpoint(vec![3, 4])),
        SnapshotUpdate::Commit { prev_epoch: 4, epochs } if epochs == vec![3, 4]
    ));
    assert_eq!(finished_commands(Some(1), &vec![None, Some(2)]), vec![1, 2]);
    assert_eq!(finished_commands(None, &vec![None]), Vec::<u64>::new());
}

#[test]
fn creating_views_are_shown_with_their_progress() {
    let mut known: BTreeMap<u32, DdlProgress> = BTreeMap::new();
    known.insert(
        5,
        DdlProgress { id: 5, statement: "s5".to_string(), progress: "12.00%".to_string() },
    );
    let creating = vec![
        CreatingTable { id: 3, is_materialized_view: true, definition: "s3".to_string() },
        CreatingTable { id: 4, is_materialized_view: false, definition: "s4".to_string() },
        CreatingTable { id: 5, is_materialized_view: true, definition: "other".to_string() },
    ];
    let progress: Vec<(u64, String, String)> = get_ddl_progress(known, creating)
        .into_iter()
        .map(|p| (p.id, p.statement, p.progress))
        .collect();
    assert_eq!(
        progress,
        vec![
            (3, "s3".to_string(), "0.0%".to_string()),
            (5, "s5".to_string(), "12.00%".to_string()),
        ]
    );
}

#[test]
fn tables_are_taken_out_of_a_map() {
    let mut map = TableMap { inner: [(1u32, 'a')].into_iter().collect() };
    assert_eq!(map.remove(1), Some('a'));
    assert_eq!(map.remove(1), None);
}
