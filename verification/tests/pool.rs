use fsearch::pool::{PoolError, ThreadPool};

#[test]
fn read_dir() {
    let _nums = [1; 10];

    let pool = ThreadPool::new(4);
    let mut pool = pool.unwrap();
    for i in 0..40 {
        let idx: u64 = i;
        pool.execute(idx);
        println!("hello {} times", idx + 1);
    }
}

#[test]
fn pool_construction_failure() {
    assert!(matches!(ThreadPool::new(0), Err(PoolError::ConstructionFailure)));
    assert!(matches!(ThreadPool::new(1), Err(PoolError::ConstructionFailure)));
    let pool = ThreadPool::new(2).unwrap();
    assert_eq!(pool.worker_count(), 2);
}

#[test]
fn least_loaded_dispatch_round_robins_when_even() {
    let mut pool = ThreadPool::new(4).unwrap();
    // On an empty pool the first shortest queue is worker 0, then 1, 2, 3.
    assert_eq!(pool.execute(100), 0);
    assert_eq!(pool.execute(101), 1);
    assert_eq!(pool.execute(102), 2);
    assert_eq!(pool.execute(103), 3);
    // All even again: back to the lowest index.
    assert_eq!(pool.execute(104), 0);
}

#[test]
fn take_is_lifo_per_worker() {
    let mut pool = ThreadPool::new(2).unwrap();
    assert_eq!(pool.execute(10), 0);
    assert_eq!(pool.execute(20), 1);
    assert_eq!(pool.execute(30), 0);
    // Worker 0 pops its most recently added job first.
    assert_eq!(pool.take(0), Some(30));
    assert_eq!(pool.take(0), Some(10));
    assert_eq!(pool.take(0), None);
    assert_eq!(pool.take(1), Some(20));
    assert_eq!(pool.take(1), None);
}

#[test]
fn pool_runs_all_jobs_exactly_once() {
    // Submitting K jobs to an N-worker pool: draining the queues executes
    // every job exactly once, none lost, none duplicated.
    let k: u64 = 40;
    let mut pool = ThreadPool::new(4).unwrap();
    let jobs: Vec<u64> = (0..k).collect();
    pool.execute_all(&jobs);
    let mut seen = vec![0usize; k as usize];
    let mut executed = 0usize;
    for worker in 0..pool.worker_count() {
        while let Some(job) = pool.take(worker) {
            seen[job as usize] += 1;
            executed += 1;
        }
    }
    assert_eq!(executed, k as usize);
    for count in seen {
        assert_eq!(count, 1);
    }
}
