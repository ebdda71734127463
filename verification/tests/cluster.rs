use risingwave_core::common::worker::{HostAddress, Resource, WorkerNode, WorkerState, WorkerType};
use risingwave_core::manager::cluster::{ClusterError, ClusterManagerCore};
use risingwave_core::manager::worker_record::{meta_node_info, AddNodeProperty};

fn host(name: &str, port: i32) -> HostAddress {
    HostAddress { host: name.to_string(), port }
}

fn resource() -> Resource {
    Resource { rw_version: "1.9.0".to_string(), total_memory_bytes: 0, total_cpu_cores: 0 }
}

fn meta() -> WorkerNode {
    meta_node_info(Some(host("127.0.0.1", 5690)), Some(1), resource())
}

fn property(parallelism: u64) -> AddNodeProperty {
    AddNodeProperty {
        worker_node_parallelism: parallelism,
        is_streaming: true,
        is_serving: true,
        is_unschedulable: false,
    }
}

/// A cluster with counters for new ids.
struct Cluster {
    core: ClusterManagerCore,
    next_worker: u32,
    next_unit: u32,
    keep_surplus: bool,
}

impl Cluster {
    fn new(keep_surplus: bool) -> Cluster {
        Cluster {
            core: ClusterManagerCore::new(vec![], 100).unwrap(),
            next_worker: 1,
            next_unit: 1,
            keep_surplus,
        }
    }

    fn add_worker_node(
        &mut self,
        worker_type: WorkerType,
        address: HostAddress,
        added: AddNodeProperty,
        expire_at: u64,
    ) -> Result<WorkerNode, ClusterError> {
        let parallelism = added.worker_node_parallelism as usize;
        let needed = self.core.needed_ids(worker_type, &address, parallelism);
        let start = self.next_unit;
        self.next_unit += needed.parallel_units as u32;
        let id = self.next_worker;
        if needed.worker_id {
            self.next_worker += 1;
        }
        let registration = self.core.register(
            worker_type,
            address,
            added,
            resource(),
            100,
            expire_at,
            id,
            start,
            self.keep_surplus,
        )?;
        Ok(self.core.enter(registration))
    }

    fn activate(&mut self, address: &HostAddress) {
        let activation = self.core.activate_worker_node(address).unwrap();
        if activation.changed {
            self.core.update_worker_node(activation.worker);
        }
    }
}

fn assert_cluster_manager(cluster: &Cluster, parallel_count: usize) {
    let units: usize = cluster
        .core
        .list_serving_worker_node(Some(WorkerState::Running), meta())
        .into_iter()
        .map(|w| w.parallel_units.len())
        .sum();
    assert_eq!(units, parallel_count);
}

fn run_cluster_manager(keep_surplus: bool) {
    let mut cluster = Cluster::new(keep_surplus);

    let mut worker_nodes = Vec::new();
    let worker_count = 5usize;
    let fake_parallelism: usize = 4;
    for i in 0..worker_count {
        let fake_host_address = host("localhost", 5000 + i as i32);
        let worker_node = cluster
            .add_worker_node(
                WorkerType::ComputeNode,
                fake_host_address,
                property(fake_parallelism as u64),
                0,
            )
            .unwrap();
        worker_nodes.push(worker_node);
    }

    // Since no worker is active, the parallel unit count should be 0.
    assert_cluster_manager(&cluster, 0);

    for worker_node in worker_nodes {
        cluster.activate(worker_node.host.as_ref().unwrap());
    }

    let counts = cluster.core.count_worker_node();
    assert_eq!(counts.compute_node as usize, worker_count);

    let parallel_count = fake_parallelism * worker_count;
    assert_cluster_manager(&cluster, parallel_count);

    // re-register existing worker node with larger parallelism.
    let worker_node = cluster
        .add_worker_node(
            WorkerType::ComputeNode,
            host("localhost", 5000),
            property((fake_parallelism + 4) as u64),
            0,
        )
        .unwrap();
    assert_eq!(worker_node.parallel_units.len(), fake_parallelism + 4);
    assert_cluster_manager(&cluster, parallel_count + 4);

    // re-register existing worker node with smaller parallelism.
    let worker_node = cluster
        .add_worker_node(
            WorkerType::ComputeNode,
            host("localhost", 5000),
            property((fake_parallelism - 2) as u64),
            0,
        )
        .unwrap();

    if !keep_surplus {
        assert_eq!(worker_node.parallel_units.len(), fake_parallelism - 2);
        assert_cluster_manager(&cluster, parallel_count - 2);
    } else {
        // compatibility mode
        assert_eq!(worker_node.parallel_units.len(), fake_parallelism + 4);
        assert_cluster_manager(&cluster, parallel_count + 4);
    }

    let worker_to_delete_count = 4usize;
    for i in 0..worker_to_delete_count {
        cluster.core.delete_worker_node(&host("localhost", 5000 + i as i32)).unwrap();
    }
    assert_cluster_manager(&cluster, fake_parallelism);
}

#[test]
fn test_cluster_manager() {
    run_cluster_manager(false);
    run_cluster_manager(true);
}

#[test]
fn test_cluster_manager_schedulability() {
    let mut cluster = Cluster::new(false);
    let worker_node = cluster
        .add_worker_node(WorkerType::ComputeNode, host("127.0.0.1", 1), property(1), 0)
        .unwrap();

    assert!(!worker_node.property.as_ref().unwrap().is_unschedulable);

    cluster.activate(worker_node.host.as_ref().unwrap());

    let changes = cluster.core.schedulability_changes(&vec![worker_node.id], true);
    assert_eq!(changes, vec![worker_node.id]);
    cluster.core.update_schedulability(&vec![worker_node.id], true);

    let worker_nodes = cluster.core.list_active_streaming_compute_nodes(meta());
    assert_eq!(cluster.core.list_active_serving_compute_nodes(meta()).len(), worker_nodes.len());

    let worker_node = &worker_nodes[0];

    assert!(worker_node.property.as_ref().unwrap().is_unschedulable);
    assert!(cluster.core.schedulability_changes(&vec![worker_node.id], true).is_empty());
}

#[test]
fn test_heartbeat() {
    let mut cluster = Cluster::new(false);
    let ttl = 10u64;
    let worker_node_1 = cluster
        .add_worker_node(WorkerType::ComputeNode, host("127.0.0.1", 1), property(1), 0)
        .unwrap();
    let context_id_1 = worker_node_1.id;
    let fake_parallelism = 4;
    let worker_node_2 = cluster
        .add_worker_node(WorkerType::ComputeNode, host("127.0.0.1", 2), property(fake_parallelism), 0)
        .unwrap();
    cluster.core.init_expire_at(100 + ttl);
    // Two live nodes
    assert_eq!(cluster.core.list_worker_node(Some(WorkerType::ComputeNode), None, meta()).len(), 2);

    // Keep worker 1 alive
    for step in 1..=6u64 {
        cluster.core.heartbeat(context_id_1, 100 + step * ttl / 3 + ttl, vec![]).unwrap();
    }

    // One node has actually expired but still got two, because heartbeat check is not
    // started.
    let now = 100 + 2 * ttl + 1;
    assert_eq!(cluster.core.list_worker_node(Some(WorkerType::ComputeNode), None, meta()).len(), 2);

    let expired = cluster.core.expired_workers(now);
    assert_eq!(expired.len(), 1);
    assert_eq!(expired[0].0, worker_node_2.id);
    for (_, address) in &expired {
        cluster.core.delete_worker_node(address).unwrap();
    }

    // One live node left.
    assert_eq!(cluster.core.list_worker_node(Some(WorkerType::ComputeNode), None, meta()).len(), 1);
    assert!(cluster.core.expired_workers(now).is_empty());
}

#[test]
fn unknown_workers_are_refused() {
    let mut cluster = Cluster::new(false);
    assert_eq!(
        cluster.core.heartbeat(9, 1, vec![]),
        Err(ClusterError::InvalidWorker { worker_id: 9 })
    );
    assert!(matches!(
        cluster.core.delete_worker_node(&host("nowhere", 1)),
        Err(ClusterError::WorkerNotExist)
    ));
    assert!(matches!(
        cluster.core.activate_worker_node(&host("nowhere", 1)),
        Err(ClusterError::WorkerNotExist)
    ));
    assert!(cluster.core.get_worker_by_id(9).is_none());
}

#[test]
fn a_freed_id_is_given_out_last() {
    let mut cluster = Cluster::new(false);
    let first = cluster
        .add_worker_node(WorkerType::ComputeNode, host("a", 1), property(1), 0)
        .unwrap();
    let freed = first.transactional_id.unwrap();
    assert!(!cluster.core.available_transactional_ids.contains(&freed));
    cluster.core.delete_worker_node(&host("a", 1)).unwrap();
    assert_eq!(cluster.core.available_transactional_ids.last(), Some(&freed));
    let second = cluster
        .add_worker_node(WorkerType::ComputeNode, host("a", 1), property(1), 0)
        .unwrap();
    assert_ne!(second.transactional_id.unwrap(), freed);
}

#[test]
fn streaming_workers_are_told() {
    let mut cluster = Cluster::new(false);
    cluster.add_worker_node(WorkerType::ComputeNode, host("a", 1), property(2), 0).unwrap();
    let second =
        cluster.add_worker_node(WorkerType::ComputeNode, host("a", 2), property(3), 0).unwrap();
    cluster.activate(&host("a", 1));
    cluster.activate(&host("a", 2));
    cluster.core.update_schedulability(&vec![second.id], true);
    let info = cluster.core.get_streaming_cluster_info(meta());
    assert_eq!(info.worker_nodes.len(), 1);
    assert_eq!(info.parallel_units.len(), 2);
    assert_eq!(info.unschedulable_parallel_units.len(), 3);
}

#[test]
fn frontends_have_no_parallel_units() {
    let mut cluster = Cluster::new(false);
    let node = cluster
        .add_worker_node(WorkerType::Frontend, host("f", 1), property(8), 0)
        .unwrap();
    assert!(node.parallel_units.is_empty());
    assert!(node.property.is_none());
}

#[test]
fn all_ids_can_be_used_up() {
    let mut cluster = Cluster::new(false);
    cluster.core.available_transactional_ids.clear();
    assert!(matches!(
        cluster.add_worker_node(WorkerType::ComputeNode, host("b", 1), property(1), 0),
        Err(ClusterError::NoReusableId)
    ));
}

#[test]
fn units_are_used_only_as_far_as_needed() {
    let mut cluster = Cluster::new(true);
    let address = host("h", 1);
    cluster.add_worker_node(WorkerType::ComputeNode, address.clone(), property(4), 200).unwrap();
    cluster.next_unit = u32::MAX;
    for parallelism in [4, 2] {
        let needed = cluster.core.needed_ids(WorkerType::ComputeNode, &address, parallelism);
        assert_eq!((needed.worker_id, needed.parallel_units), (false, 0));
        let node = cluster
            .add_worker_node(
                WorkerType::ComputeNode,
                address.clone(),
                property(parallelism as u64),
                300,
            )
            .unwrap();
        assert_eq!(node.parallel_units.len(), 4);
    }
    let node = cluster
        .add_worker_node(WorkerType::Frontend, host("f", 2), property(7), 300)
        .unwrap();
    assert!(node.parallel_units.is_empty());
}
