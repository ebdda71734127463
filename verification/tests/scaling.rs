use risingwave_core::common::bitmap::Bitmap;
use risingwave_core::common::worker::{
    HostAddress, ParallelUnit, Property, WorkerNode, WorkerState, WorkerType,
};
use risingwave_core::scale::actors::replace_merge_node_upstream;
use risingwave_core::scale::arrange::new_actor_count;
use risingwave_core::scale::assemble::assemble_reschedules;
use risingwave_core::scale::context::{build_reschedule_context, find_stream_source};
use risingwave_core::scale::control::{
    created_parallelisms, decide_parallelism_control, schedulable_workers, source_changes,
    split_migrations, up_down_stream_fragments, ControlDecision, ParallelismMonitor,
};
use risingwave_core::scale::creation::plan_creation;
use risingwave_core::scale::fragment::Fragment;
use risingwave_core::scale::model::{
    ActorMapping, ActorState, ActorStatus, CustomActorInfo, CustomFragmentInfo, Dispatcher,
    DispatcherType, FragmentDistributionType, NodeBody, ParallelUnitReschedule, RescheduleOptions,
    ScaleError, StreamActor, StreamNode, TableFragments, TableParallelism, TableResizePolicy,
    TableState,
};
use risingwave_core::scale::prepare::prepare_reschedule;
use risingwave_core::scale::rebalance::rebalance_actor_vnode;
use risingwave_core::scale::resize::generate_table_resize_plan;
use risingwave_core::scale::stable::{
    generate_stable_resize_plan, get_reschedule_plan, Policy, StableResizePolicy, WorkerChanges,
};
use risingwave_core::scale::units::{diff_parallel_unit_change, schedule_units_for_slots};
use risingwave_core::stream::locations::dropped_actors;
use risingwave_core::stream::resize::{alter_table_parallelism, AlterDecision};
use std::collections::{BTreeMap, BTreeSet};

fn worker(id: u32, units: &[u32], unschedulable: bool) -> WorkerNode {
    WorkerNode {
        id,
        worker_type: WorkerType::ComputeNode,
        host: Some(HostAddress { host: format!("h{}", id), port: 1 }),
        state: WorkerState::Running,
        parallel_units: units
            .iter()
            .map(|u| ParallelUnit { id: *u, worker_node_id: id })
            .collect(),
        property: Some(Property {
            is_streaming: true,
            is_serving: true,
            is_unschedulable: unschedulable,
        }),
        transactional_id: None,
        resource: None,
        started_at: None,
    }
}

fn bits(from: usize, to: usize) -> Bitmap {
    Bitmap::from_bool_vec((0..256).map(|i| from <= i && i < to).collect())
}

fn leaf(node_body: NodeBody) -> StreamNode {
    StreamNode { node_body, input: vec![] }
}

fn stream_actor(actor_id: u32, fragment_id: u32, node: StreamNode) -> StreamActor {
    StreamActor {
        actor_id,
        fragment_id,
        nodes: Some(node),
        dispatcher: vec![],
        upstream_actor_id: vec![],
        vnode_bitmap: None,
    }
}

fn hash_mapping(owners: &[u32]) -> ActorMapping {
    let share = 256 / owners.len();
    ActorMapping { owners: (0..256).map(|v| owners[v / share]).collect() }
}

fn status(unit: u32, worker_node_id: u32) -> ActorStatus {
    ActorStatus {
        parallel_unit: Some(ParallelUnit { id: unit, worker_node_id }),
        state: ActorState::Running,
    }
}

/// A table with a source fragment, one actor on the first unit, and a fragment of two actors that it
/// distributes to by hash.
fn table() -> TableFragments {
    let dispatcher = || Dispatcher {
        dispatcher_type: DispatcherType::Hash,
        dispatcher_id: 2,
        hash_mapping: Some(hash_mapping(&[21, 22])),
        downstream_actor_id: vec![21, 22],
    };
    let mut top = stream_actor(11, 1, leaf(NodeBody::Other));
    top.dispatcher = vec![dispatcher()];
    let upstream = CustomFragmentInfo {
        fragment_id: 1,
        fragment_type_mask: 0,
        distribution_type: FragmentDistributionType::Single,
        state_table_ids: vec![],
        upstream_fragment_ids: vec![],
        actor_template: top,
        actors: vec![CustomActorInfo {
            actor_id: 11,
            fragment_id: 1,
            dispatcher: vec![dispatcher()],
            upstream_actor_id: vec![],
            vnode_bitmap: None,
        }],
    };
    let merge = leaf(NodeBody::Merge { upstream_fragment_id: 1, upstream_actor_id: vec![11] });
    let mut template = stream_actor(21, 2, merge);
    template.upstream_actor_id = vec![11];
    template.vnode_bitmap = Some(bits(0, 128));
    let actor = |actor_id, from, to| CustomActorInfo {
        actor_id,
        fragment_id: 2,
        dispatcher: vec![],
        upstream_actor_id: vec![11],
        vnode_bitmap: Some(bits(from, to)),
    };
    let downstream = CustomFragmentInfo {
        fragment_id: 2,
        fragment_type_mask: 0,
        distribution_type: FragmentDistributionType::Hash,
        state_table_ids: vec![1],
        upstream_fragment_ids: vec![1],
        actor_template: template,
        actors: vec![actor(21, 0, 128), actor(22, 128, 256)],
    };
    TableFragments {
        table_id: 5,
        state: TableState::Created,
        fragments: [(1, upstream), (2, downstream)].into_iter().collect(),
        actor_status: [(11, status(1, 1)), (21, status(1, 1)), (22, status(2, 1))]
            .into_iter()
            .collect(),
        assigned_parallelism: TableParallelism::Adaptive,
    }
}

fn ids(set: &BTreeSet<u32>) -> Vec<u32> {
    set.iter().cloned().collect()
}

fn plan(added: &[u32], removed: &[u32]) -> ParallelUnitReschedule {
    ParallelUnitReschedule {
        added_parallel_units: added.iter().cloned().collect(),
        removed_parallel_units: removed.iter().cloned().collect(),
    }
}

#[test]
fn fragments_keep_one_template() {
    let mut first = stream_actor(7, 4, leaf(NodeBody::Source { has_inner_stream: true }));
    first.vnode_bitmap = Some(bits(0, 100));
    first.dispatcher = vec![Dispatcher {
        dispatcher_type: DispatcherType::Hash,
        dispatcher_id: 5,
        hash_mapping: Some(hash_mapping(&[9])),
        downstream_actor_id: vec![9],
    }];
    let mut second = stream_actor(8, 4, leaf(NodeBody::Other));
    second.upstream_actor_id = vec![1, 2];
    let info = CustomFragmentInfo::from_fragment(Fragment {
        fragment_id: 4,
        fragment_type_mask: 3,
        distribution_type: FragmentDistributionType::Hash,
        state_table_ids: vec![6],
        upstream_fragment_ids: vec![2],
        actors: vec![first, second],
    });
    assert_eq!((info.fragment_id, info.get_fragment_type_mask()), (4, 3));
    assert_eq!(info.distribution_type(), FragmentDistributionType::Hash);
    assert_eq!(info.actor_template.actor_id, 7);
    assert!(find_stream_source(info.actor_template.nodes.as_ref().unwrap()));
    assert_eq!(info.actors.len(), 2);
    assert_eq!(info.actors[0].vnode_bitmap.as_ref().unwrap().count_ones(), 100);
    assert_eq!(info.actors[0].dispatcher[0].downstream_actor_id, vec![9]);
    assert_eq!(info.actors[0].dispatcher[0].hash_mapping.as_ref().unwrap().owners[255], 9);
    assert_eq!(info.actors[1].upstream_actor_id, vec![1, 2]);
    assert!(info.actors[1].vnode_bitmap.is_none());
}

#[test]
fn virtual_nodes_are_spread_again() {
    let t = table();
    let actors = &t.fragments[&2].actors;
    let res = rebalance_actor_vnode(
        actors,
        &BTreeSet::new(),
        &[31, 32].into_iter().collect::<BTreeSet<u32>>(),
    );
    let mut owned = vec![0; 256];
    for (_, b) in &res {
        assert_eq!(b.count_ones(), 64);
        for v in 0..256 {
            if b.is_set(v) {
                owned[v] += 1;
            }
        }
    }
    assert_eq!(owned, vec![1; 256]);
    let res = rebalance_actor_vnode(
        actors,
        &[22].into_iter().collect::<BTreeSet<u32>>(),
        &BTreeSet::new(),
    );
    assert_eq!(res.len(), 1);
    assert_eq!(res[&21].count_ones(), 256);
}

fn owning(actor_id: u32, from: usize, to: usize) -> CustomActorInfo {
    CustomActorInfo {
        actor_id,
        fragment_id: 2,
        dispatcher: vec![],
        upstream_actor_id: vec![],
        vnode_bitmap: Some(bits(from, to)),
    }
}

#[test]
fn new_actors_get_the_remainder() {
    let res = rebalance_actor_vnode(
        &vec![owning(1, 0, 256)],
        &BTreeSet::new(),
        &[2, 3].into_iter().collect::<BTreeSet<u32>>(),
    );
    assert_eq!(res[&1].count_ones(), 85);
    assert_eq!(res[&2].count_ones() + res[&3].count_ones(), 171);
    assert!(res[&2].count_ones() >= 85 && res[&3].count_ones() >= 85);
    assert!((0..256).all(|v| res.values().filter(|b| b.is_set(v)).count() == 1));
}

#[test]
fn the_first_new_actors_get_the_remainder() {
    let actors: Vec<CustomActorInfo> =
        (0..4).map(|i| owning(i, i as usize * 64, i as usize * 64 + 64)).collect();
    let res = rebalance_actor_vnode(
        &actors,
        &(0..4).collect::<BTreeSet<u32>>(),
        &(10..16).collect::<BTreeSet<u32>>(),
    );
    let counts: Vec<usize> = (10..16).map(|id| res[&id].count_ones()).collect();
    assert_eq!(counts, vec![43, 43, 43, 43, 42, 42]);

    let actors = vec![owning(0, 0, 86), owning(1, 86, 171), owning(2, 171, 256)];
    let res = rebalance_actor_vnode(
        &actors,
        &[0].into_iter().collect::<BTreeSet<u32>>(),
        &(10..15).collect::<BTreeSet<u32>>(),
    );
    let counts: Vec<usize> = [1, 2, 10, 11, 12, 13, 14].map(|id| res[&id].count_ones()).to_vec();
    assert_eq!(counts, vec![36, 36, 37, 37, 37, 36, 37]);
}

#[test]
fn removed_actors_are_not_in_the_result() {
    let actors: Vec<CustomActorInfo> = (0..300)
        .map(|i: usize| owning(i as u32, i.min(256), (i + 1).min(256)))
        .collect();
    let removed: BTreeSet<u32> = (256..300).collect();
    let res = rebalance_actor_vnode(&actors, &removed, &BTreeSet::new());
    assert_eq!(res.keys().cloned().collect::<Vec<u32>>(), (0..256).collect::<Vec<u32>>());
    assert!(res.values().all(|b| b.count_ones() == 1));
}

#[test]
fn a_replaced_actor_hands_its_nodes_on() {
    let actors = vec![owning(1, 0, 86), owning(2, 86, 171), owning(3, 171, 256)];
    let replaced = |gone: u32| {
        rebalance_actor_vnode(
            &actors,
            &[gone].into_iter().collect::<BTreeSet<u32>>(),
            &[4].into_iter().collect::<BTreeSet<u32>>(),
        )
    };
    let res = replaced(1);
    assert_eq!(res.len(), 3);
    for (id, from, to) in [(4, 0, 86), (2, 86, 171), (3, 171, 256)] {
        assert!((0..256).all(|v| res[&id].is_set(v) == (from <= v && v < to)));
    }

    let res = replaced(2);
    assert_eq!(res[&4].count_ones(), 86);
    assert_eq!((res[&1].count_ones(), res[&3].count_ones()), (85, 85));
    assert!((0..256).all(|v| res.values().filter(|b| b.is_set(v)).count() == 1));
    for (id, from, to) in [(1, 0, 86), (3, 171, 256)] {
        let lost = (from..to).any(|v| !res[&id].is_set(v));
        let won = (0..256).any(|v| !(from <= v && v < to) && res[&id].is_set(v));
        assert!(!(lost && won));
    }
}

#[test]
fn tables_grow_over_all_units() {
    let workers = vec![worker(1, &[1, 2], false), worker(2, &[3, 4], false)];
    let tables = vec![table()];
    let policy = TableResizePolicy {
        worker_ids: [1, 2].into_iter().collect(),
        table_parallelisms: [(5, TableParallelism::Adaptive)].into_iter().collect(),
    };
    let plans = generate_table_resize_plan(&policy, &workers, &tables).unwrap();
    let two = &plans[&2];
    assert_eq!(ids(&two.added_parallel_units), vec![3, 4]);
    assert!(two.removed_parallel_units.is_empty());

    let policy = TableResizePolicy {
        worker_ids: [1, 2].into_iter().collect(),
        table_parallelisms: [(5, TableParallelism::Fixed(3))].into_iter().collect(),
    };
    let plans = generate_table_resize_plan(&policy, &workers, &tables).unwrap();
    let two = &plans[&2];
    assert_eq!(2 + two.added_parallel_units.len() - two.removed_parallel_units.len(), 3);

    let bad = TableResizePolicy {
        worker_ids: [2].into_iter().collect(),
        table_parallelisms: BTreeMap::new(),
    };
    assert_eq!(
        generate_table_resize_plan(
            &bad,
            &vec![worker(1, &[1], false), worker(2, &[3], true)],
            &tables
        )
        .err(),
        Some(ScaleError::UnschedulableWorker { worker_id: 2 })
    );
}

#[test]
fn reschedules_are_carried_out() {
    let workers = vec![worker(1, &[1, 2], false), worker(2, &[3, 4], false)];
    let tables = vec![table()];
    let mut reschedules: BTreeMap<u32, ParallelUnitReschedule> =
        [(2, plan(&[3, 4], &[2]))].into_iter().collect();
    let options = RescheduleOptions {
        resolve_no_shuffle_upstream: false,
        skip_create_new_actors: false,
    };
    let ctx =
        build_reschedule_context(&workers, &tables, &mut reschedules, options, &mut None, 0)
            .unwrap();
    assert_eq!(new_actor_count(&reschedules), Some(2));
    let prepared = prepare_reschedule(&reschedules, &ctx, &vec![101, 102]).unwrap();
    assert_eq!(
        prepared.fragment_actors_to_remove[&2].keys().cloned().collect::<Vec<u32>>(),
        vec![22]
    );
    assert_eq!(
        prepared.fragment_actors_to_create[&2].keys().cloned().collect::<Vec<u32>>(),
        vec![101, 102]
    );
    let total: usize =
        prepared.fragment_actor_bitmap[&2].values().map(|b| b.count_ones()).sum();
    assert_eq!(total, 256);
    let new_actor = &prepared.new_created_actors[&2][&101];
    assert_eq!(new_actor.upstream_actor_id, vec![11]);
    assert!(new_actor.vnode_bitmap.is_some());
    let creation =
        plan_creation(&ctx, &prepared.fragment_actors_to_create, &prepared.new_created_actors)
            .unwrap();
    assert_eq!(creation.node_actors_to_create[&2], vec![101, 102]);
    assert!(creation.actor_infos_to_broadcast.contains_key(&101));
    assert!(creation.actor_infos_to_broadcast.iter().all(|(id, info)| info.actor_id == *id));
    assert!(creation.broadcast_worker_ids.contains(&1));
    assert!(creation.broadcast_worker_ids.contains(&2));
    let done =
        assemble_reschedules(&reschedules, &ctx, prepared, BTreeMap::new(), 0).unwrap();
    let two = &done[&2];
    assert_eq!(ids(&two.removed_actors), vec![22]);
    assert_eq!(two.added_actors[&2], vec![101, 102]);
    assert_eq!(two.upstream_fragment_dispatcher_ids, vec![(1, 2)]);
    let mapping = two.upstream_dispatcher_mapping.as_ref().unwrap();
    assert_eq!(mapping.owners.len(), 256);
    assert!(mapping.owners.iter().all(|a| [21, 101, 102].contains(a)));
    assert_eq!(two.newly_created_actors.len(), 2);
    assert!(!two.vnode_bitmap_updates.contains_key(&22));
    assert_eq!(ids(&up_down_stream_fragments(&done)), vec![1]);
    let (moving, dropped) = source_changes(&done);
    assert!(moving.is_empty());
    assert!(dropped.is_empty());
}

/// The table with a third fragment, whose actors are joined one to one with those of the second.
fn table_with_follower() -> TableFragments {
    let mut t = table();
    let to = |actor_id| Dispatcher {
        dispatcher_type: DispatcherType::NoShuffle,
        dispatcher_id: 3,
        hash_mapping: None,
        downstream_actor_id: vec![actor_id],
    };
    let second = t.fragments.get_mut(&2).unwrap();
    second.actors[0].dispatcher = vec![to(31)];
    second.actors[1].dispatcher = vec![to(32)];
    second.actor_template.dispatcher = vec![to(31)];
    let merge = leaf(NodeBody::Merge { upstream_fragment_id: 2, upstream_actor_id: vec![21] });
    let mut template = stream_actor(31, 3, merge);
    template.upstream_actor_id = vec![21];
    template.vnode_bitmap = Some(bits(0, 128));
    let actor = |actor_id, upstream, from, to| CustomActorInfo {
        actor_id,
        fragment_id: 3,
        dispatcher: vec![],
        upstream_actor_id: vec![upstream],
        vnode_bitmap: Some(bits(from, to)),
    };
    let third = CustomFragmentInfo {
        fragment_id: 3,
        fragment_type_mask: 0,
        distribution_type: FragmentDistributionType::Hash,
        state_table_ids: vec![],
        upstream_fragment_ids: vec![2],
        actor_template: template,
        actors: vec![actor(31, 21, 0, 128), actor(32, 22, 128, 256)],
    };
    t.fragments.insert(3, third);
    t.actor_status.insert(31, status(1, 1));
    t.actor_status.insert(32, status(2, 1));
    t
}

#[test]
fn followers_stay_beside_their_root() {
    let workers = vec![worker(1, &[1, 2], false), worker(2, &[3, 4], false)];
    let tables = vec![table_with_follower()];
    let mut reschedules: BTreeMap<u32, ParallelUnitReschedule> =
        [(2, plan(&[3, 4], &[2]))].into_iter().collect();
    let options = RescheduleOptions {
        resolve_no_shuffle_upstream: false,
        skip_create_new_actors: false,
    };
    let ctx =
        build_reschedule_context(&workers, &tables, &mut reschedules, options, &mut None, 0)
            .unwrap();
    assert_eq!(ids(&reschedules[&3].added_parallel_units), vec![3, 4]);
    assert_eq!(ids(&reschedules[&3].removed_parallel_units), vec![2]);
    assert_eq!(new_actor_count(&reschedules), Some(4));
    let prepared = prepare_reschedule(&reschedules, &ctx, &vec![101, 102, 103, 104]).unwrap();
    let root = &prepared.fragment_actors_after_reschedule[&2];
    let follower = &prepared.fragment_actors_after_reschedule[&3];
    assert_eq!(
        root.iter().map(|(a, u)| (*a, *u)).collect::<Vec<(u32, u32)>>(),
        vec![(21, 1), (101, 3), (102, 4)]
    );
    assert_eq!(
        follower.iter().map(|(a, u)| (*a, *u)).collect::<Vec<(u32, u32)>>(),
        vec![(31, 1), (103, 3), (104, 4)]
    );
    for (a, b) in [(21, 31), (101, 103), (102, 104)] {
        let own = &prepared.fragment_actor_bitmap[&2][&a];
        let copied = &prepared.fragment_actor_bitmap[&3][&b];
        assert!((0..256).all(|v| own.is_set(v) == copied.is_set(v)));
    }
    assert_eq!(prepared.new_created_actors[&3][&103].upstream_actor_id, vec![101]);
    assert_eq!(
        prepared.new_created_actors[&2][&102].dispatcher[0].downstream_actor_id,
        vec![104]
    );

    let mut refused: BTreeMap<u32, ParallelUnitReschedule> =
        [(3, plan(&[3], &[]))].into_iter().collect();
    assert_eq!(
        build_reschedule_context(&workers, &tables, &mut refused, options, &mut None, 0).err(),
        Some(ScaleError::NoShuffleDownstream { fragment_id: 3 })
    );
}

#[test]
fn splits_move_with_the_actors() {
    let workers = vec![worker(1, &[1, 2], false), worker(2, &[3, 4], false)];
    let mut t = table();
    let source = leaf(NodeBody::Source { has_inner_stream: true });
    if let Some(f) = t.fragments.get_mut(&2) {
        f.fragment_type_mask = 1;
        f.actor_template.nodes = Some(source);
    }
    let tables = vec![t];
    let mut reschedules: BTreeMap<u32, ParallelUnitReschedule> =
        [(2, plan(&[3], &[]))].into_iter().collect();
    let options = RescheduleOptions {
        resolve_no_shuffle_upstream: false,
        skip_create_new_actors: false,
    };
    let ctx =
        build_reschedule_context(&workers, &tables, &mut reschedules, options, &mut None, 1)
            .unwrap();
    assert_eq!(ids(&ctx.stream_source_fragment_ids), vec![2]);
    let prepared = prepare_reschedule(&reschedules, &ctx, &vec![101]).unwrap();
    let moves =
        split_migrations(&reschedules, &ctx, &prepared.fragment_actors_after_reschedule);
    assert_eq!(moves.len(), 1);
    assert_eq!(moves[0].prev_actor_ids, vec![21, 22]);
    assert_eq!(moves[0].curr_actor_ids, vec![21, 22, 101]);
    assert_eq!(created_parallelisms(&tables)[&5], TableParallelism::Adaptive);
    assert_eq!(dropped_actors(&tables), vec![11, 21, 22]);
}

#[test]
fn wrong_reschedules_are_refused() {
    let workers = vec![worker(1, &[1, 2], false), worker(2, &[3, 4], true)];
    let tables = vec![table()];
    let refused = |f: u32, p: ParallelUnitReschedule| {
        let mut reschedules: BTreeMap<u32, ParallelUnitReschedule> =
            [(f, p)].into_iter().collect();
        let options = RescheduleOptions {
            resolve_no_shuffle_upstream: false,
            skip_create_new_actors: false,
        };
        build_reschedule_context(&workers, &tables, &mut reschedules, options, &mut None, 0)
            .err()
            .unwrap()
    };
    assert_eq!(refused(9, plan(&[], &[1])), ScaleError::FragmentNotFound { fragment_id: 9 });
    assert_eq!(
        refused(2, plan(&[3], &[])),
        ScaleError::UnschedulableParallelUnit {
            fragment_id: 2,
            parallel_unit_id: 3,
            worker_id: 2
        }
    );
    assert_eq!(
        refused(2, plan(&[1], &[])),
        ScaleError::ParallelUnitInUse { fragment_id: 2, parallel_unit_id: 1 }
    );
    assert_eq!(
        refused(2, plan(&[], &[1, 2])),
        ScaleError::RemovesAllParallelUnits { fragment_id: 2 }
    );
    assert_eq!(
        refused(2, plan(&[9], &[])),
        ScaleError::ParallelUnitNotAvailable { parallel_unit_id: 9 }
    );
    assert_eq!(
        refused(2, plan(&[], &[4])),
        ScaleError::NoActorOnParallelUnit { fragment_id: 2, parallel_unit_id: 4 }
    );
    assert_eq!(
        refused(1, plan(&[2], &[])),
        ScaleError::SingleOnlyMigrates { fragment_id: 1 }
    );
}

fn changes(gained: &[u32], lost: &[u32], target: Option<usize>) -> WorkerChanges {
    WorkerChanges {
        include_worker_ids: gained.iter().cloned().collect(),
        exclude_worker_ids: lost.iter().cloned().collect(),
        target_parallelism: target,
        target_parallelism_per_worker: None,
    }
}

#[test]
fn fragments_move_between_workers() {
    let workers = vec![worker(1, &[1, 2], false), worker(2, &[3, 4], false)];
    let tables = vec![table()];
    let policy = StableResizePolicy {
        fragment_worker_changes: [(2, changes(&[2], &[1], None))].into_iter().collect(),
    };
    let plans = generate_stable_resize_plan(policy, None, &workers, &tables).unwrap();
    assert_eq!(ids(&plans[&2].added_parallel_units), vec![3, 4]);
    assert_eq!(ids(&plans[&2].removed_parallel_units), vec![1, 2]);

    let policy = StableResizePolicy {
        fragment_worker_changes: [(2, changes(&[2], &[2], None))].into_iter().collect(),
    };
    assert_eq!(
        get_reschedule_plan(Policy::StableResizePolicy(policy), &workers, &tables).err(),
        Some(ScaleError::WorkerInBothLists { worker_id: 2 })
    );
    let policy = StableResizePolicy {
        fragment_worker_changes: [(2, changes(&[2], &[], Some(9)))].into_iter().collect(),
    };
    assert_eq!(
        generate_stable_resize_plan(policy, None, &workers, &tables).err(),
        Some(ScaleError::TargetParallelismTooLarge { fragment_id: 2, target: 9, available: 4 })
    );
    let mut unknown = changes(&[7], &[], None);
    unknown.target_parallelism_per_worker = Some(1);
    let policy =
        StableResizePolicy { fragment_worker_changes: [(2, unknown)].into_iter().collect() };
    assert_eq!(
        generate_stable_resize_plan(policy, None, &workers, &tables).err(),
        Some(ScaleError::WorkerNotFound { worker_id: 7 })
    );
}

#[test]
fn units_are_compared_and_scheduled() {
    let change = diff_parallel_unit_change(
        &[1, 2].into_iter().collect::<BTreeSet<u32>>(),
        &[2, 3].into_iter().collect::<BTreeSet<u32>>(),
    );
    assert_eq!(ids(&change.added_parallel_units), vec![3]);
    assert_eq!(ids(&change.removed_parallel_units), vec![1]);
    let slots: BTreeMap<u32, BTreeSet<u32>> =
        [(1, [10, 11].into_iter().collect()), (2, [20, 21].into_iter().collect())]
            .into_iter()
            .collect();
    let scheduled = schedule_units_for_slots(&slots, 4, 42).unwrap();
    let all: usize = scheduled.values().map(|s| s.len()).sum();
    assert_eq!(all, 4);
    let some = schedule_units_for_slots(&slots, 2, 42).unwrap();
    assert_eq!(some.values().map(|s| s.len()).sum::<usize>(), 2);
    assert!(schedule_units_for_slots(&slots, 5, 42).is_err());
}

#[test]
fn parallelism_is_controlled() {
    let workers = vec![worker(1, &[1, 2], false), worker(2, &[3, 4], true)];
    let tables = vec![table()];
    let wanted: BTreeMap<u32, TableParallelism> =
        [(5, TableParallelism::Adaptive)].into_iter().collect();
    assert_eq!(ids(&schedulable_workers(&workers)), vec![1]);
    assert!(matches!(
        decide_parallelism_control(&vec![7], &workers, &tables, &wanted, 10),
        Ok(ControlDecision::Retry)
    ));
    assert!(matches!(
        decide_parallelism_control(&vec![], &workers, &tables, &wanted, 10),
        Ok(ControlDecision::Rest)
    ));
    let more = vec![worker(1, &[1, 2], false), worker(2, &[3, 4], false)];
    assert!(matches!(
        decide_parallelism_control(&vec![], &more, &tables, &wanted, 10),
        Ok(ControlDecision::Reschedule(p)) if p.contains_key(&2)
    ));
    assert!(matches!(
        alter_table_parallelism(5, TableParallelism::Adaptive, true, &more, &tables),
        Ok(AlterDecision::Record)
    ));
    assert!(matches!(
        alter_table_parallelism(5, TableParallelism::Adaptive, false, &workers, &tables),
        Ok(AlterDecision::Record)
    ));
    assert!(matches!(
        alter_table_parallelism(5, TableParallelism::Adaptive, false, &more, &tables),
        Ok(AlterDecision::Reschedule(_))
    ));
}

#[test]
fn workers_are_watched() {
    let mut monitor = ParallelismMonitor::new(&vec![worker(1, &[1, 2], false)]);
    assert!(!monitor.should_trigger);
    assert!(!monitor.on_tick());
    monitor.on_worker_activated(&worker(2, &[3], false));
    assert!(monitor.should_trigger);
    assert!(monitor.on_tick());
    assert!(monitor.on_checked(None));
    assert!(monitor.should_trigger);
    assert!(!monitor.on_checked(Some(true)));
    assert!(monitor.should_trigger);
    assert!(!monitor.on_checked(Some(false)));
    assert!(!monitor.should_trigger);
    monitor.on_worker_activated(&worker(2, &[3], false));
    assert!(!monitor.should_trigger);
    monitor.on_worker_activated(&worker(2, &[3, 4], false));
    assert!(monitor.should_trigger);
    let mut serving = worker(3, &[5], false);
    serving.property.as_mut().unwrap().is_streaming = false;
    monitor.on_worker_activated(&serving);
    assert!(!monitor.on_worker_deleted(3));
    assert!(monitor.on_worker_deleted(2));
    assert!(!monitor.on_worker_deleted(2));
    assert!(monitor.on_tick());
    assert!(monitor.on_worker_deleted(1));
    assert!(!monitor.on_tick());
    assert!(!monitor.should_trigger);
}

#[test]
fn merges_get_other_upstreams() {
    let node = StreamNode {
        node_body: NodeBody::Other,
        input: vec![
            leaf(NodeBody::Merge { upstream_fragment_id: 1, upstream_actor_id: vec![11, 12] }),
            leaf(NodeBody::Source { has_inner_stream: true }),
        ],
    };
    assert!(find_stream_source(&node));
    assert!(!find_stream_source(&leaf(NodeBody::Source { has_inner_stream: false })));
    let ups: BTreeMap<u32, Vec<u32>> = [(1, vec![13])].into_iter().collect();
    let res = replace_merge_node_upstream(&node, &ups);
    assert!(matches!(
        &res.input[0].node_body,
        NodeBody::Merge { upstream_actor_id, .. } if *upstream_actor_id == vec![13]
    ));
}
