use risingwave_core::scale::model::ScaleError;
use risingwave_core::scale::ring::ConsistentHashRing;
use std::collections::BTreeMap;

const DEFAULT_SALT: u32 = 42;

#[test]
fn test_single_worker_capacity() {
    let mut ch = ConsistentHashRing::new(DEFAULT_SALT);
    ch.add_worker(1, 10);

    let total_tasks = 5;
    let task_distribution = ch.distribute_tasks(total_tasks).unwrap();

    assert_eq!(task_distribution.get(&1).cloned().unwrap_or(0), 5);
}

#[test]
fn test_multiple_workers_even_distribution() {
    let mut ch = ConsistentHashRing::new(DEFAULT_SALT);

    ch.add_worker(1, 1);
    ch.add_worker(2, 1);
    ch.add_worker(3, 1);

    let total_tasks = 3;
    let task_distribution = ch.distribute_tasks(total_tasks).unwrap();

    for id in 1..=3 {
        assert_eq!(task_distribution.get(&id).cloned().unwrap_or(0), 1);
    }
}

#[test]
fn test_weighted_distribution() {
    let mut ch = ConsistentHashRing::new(DEFAULT_SALT);

    ch.add_worker(1, 2);
    ch.add_worker(2, 3);
    ch.add_worker(3, 5);

    let total_tasks = 10;
    let task_distribution = ch.distribute_tasks(total_tasks).unwrap();

    assert_eq!(task_distribution.get(&1).cloned().unwrap_or(0), 2);
    assert_eq!(task_distribution.get(&2).cloned().unwrap_or(0), 3);
    assert_eq!(task_distribution.get(&3).cloned().unwrap_or(0), 5);
}

#[test]
fn test_over_capacity() {
    let mut ch = ConsistentHashRing::new(DEFAULT_SALT);

    ch.add_worker(1, 1);
    ch.add_worker(2, 2);
    ch.add_worker(3, 3);

    let total_tasks = 10; // More tasks than the total weight
    let task_distribution = ch.distribute_tasks(total_tasks);

    assert!(task_distribution.is_err());
}

#[test]
fn test_balance_distribution() {
    for mut worker_capacity in 1..10 {
        for workers in 3..10 {
            let mut ring = ConsistentHashRing::new(DEFAULT_SALT);

            for worker_id in 0..workers {
                ring.add_worker(worker_id, worker_capacity);
            }

            // Here we simulate a real situation where the actual parallelism cannot fill all the capacity.
            // This is to ensure an average distribution, for example, when three workers with 6 parallelism are assigned 9 tasks,
            // they should ideally get an exact distribution of 3, 3, 3 respectively.
            if worker_capacity % 2 == 0 {
                worker_capacity /= 2;
            }

            let total_tasks = worker_capacity * workers;

            let task_distribution = ring.distribute_tasks(total_tasks).unwrap();

            for (_, v) in task_distribution {
                assert_eq!(v, worker_capacity);
            }
        }
    }
}

#[test]
fn the_shares_add_up_to_all_tasks() {
    let mut ring = ConsistentHashRing::new(7);
    ring.add_worker(3, 4);
    ring.add_worker(9, 6);
    for total in 0..=10u32 {
        let shares = ring.distribute_tasks(total).unwrap();
        assert_eq!(shares.values().sum::<u32>(), total);
        assert!(shares.get(&3).cloned().unwrap_or(0) <= 4);
        assert!(shares.get(&9).cloned().unwrap_or(0) <= 6);
    }
}

#[test]
fn whole_shares_are_kept() {
    let mut ring = ConsistentHashRing::new(DEFAULT_SALT);
    for worker in 0..10 {
        ring.add_worker(worker, 9);
    }
    assert!(ring.distribute_tasks(70).unwrap().values().all(|share| *share == 7));

    let mut ring = ConsistentHashRing::new(DEFAULT_SALT);
    ring.add_worker(1, 14);
    ring.add_worker(2, 186);
    let shares = ring.distribute_tasks(100).unwrap();
    assert_eq!((shares[&1], shares[&2]), (7, 93));
}

#[test]
fn no_workers_and_no_tasks() {
    let ring = ConsistentHashRing::new(1);
    assert!(ring.distribute_tasks(1).is_err());
}

#[test]
fn limits_that_are_too_low_are_refused() {
    let mut ring = ConsistentHashRing::new(1);
    ring.add_worker(1, 5);
    ring.add_worker(2, 5);
    let mut limits: BTreeMap<u32, u32> = BTreeMap::new();
    limits.insert(1, 1);
    limits.insert(2, 2);
    assert!(ring.distribute_tasks_within(4, &limits).is_err());
    let shares = ring.distribute_tasks_within(3, &limits).unwrap();
    assert_eq!(shares.get(&1), Some(&1));
    assert_eq!(shares.get(&2), Some(&2));
    let refused: Result<BTreeMap<u32, u32>, ScaleError> = ring.distribute_tasks(11);
    assert!(refused.is_err());
}
