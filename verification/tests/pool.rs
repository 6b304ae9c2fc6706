use http_server::error::Error;
use http_server::threadpool::PoolState;

#[test]
fn building_a_pool_of_size_zero_fails() {
    match PoolState::build(0) {
        Err(e) => assert_eq!(e, Error::InvalidPoolSize),
        Ok(_) => panic!("a zero-sized pool must be refused"),
    }
}

#[test]
fn building_a_pool_of_positive_size_succeeds() {
    for k in 1..6usize {
        let p = PoolState::build(k).expect("a positive size must be accepted");
        assert_eq!(p.size, k);
        assert!(!p.closed);
        assert!(p.pending.is_empty());
    }
}

#[test]
fn a_pool_accepts_as_many_jobs_as_it_has_workers() {
    let k = 4u64;
    let mut p = PoolState::build(k as usize).expect("a positive size must be accepted");
    for job in 0..k {
        p.execute(job);
    }
    assert_eq!(p.pending.len(), k as usize);
}

#[test]
fn jobs_are_handed_out_in_fifo_order_and_only_once() {
    let mut p = PoolState::build(2).expect("a positive size must be accepted");
    for job in 10..15u64 {
        p.execute(job);
    }
    let mut handed = Vec::new();
    while let Some(job) = p.next_job() {
        handed.push(job);
    }
    assert_eq!(handed, vec![10, 11, 12, 13, 14]);
    assert!(p.pending.is_empty());
    assert_eq!(p.running.len(), 5);
}

#[test]
fn more_jobs_than_workers_all_complete_exactly_once() {
    // M jobs on a pool of N < M workers: every job completes exactly once
    let m = 10u64;
    let n = 3usize;
    let mut p = PoolState::build(n).expect("a positive size must be accepted");
    for job in 0..m {
        p.execute(job);
    }
    p.begin_shutdown();

    // workers drain the queue: take a job, run it, report it finished
    let mut completions = vec![0usize; m as usize];
    while let Some(job) = p.next_job() {
        completions[job as usize] += 1;
        p.finish(job);
    }

    assert!(p.closed && p.pending.is_empty() && p.running.is_empty());
    assert_eq!(p.completed.len(), m as usize);
    for (job, count) in completions.iter().enumerate() {
        assert_eq!(*count, 1, "job {} must complete exactly once", job);
    }
}

#[test]
fn finish_removes_one_occurrence_from_running() {
    let mut p = PoolState::build(1).expect("a positive size must be accepted");
    p.execute(7);
    p.execute(8);
    assert_eq!(p.next_job(), Some(7));
    assert_eq!(p.next_job(), Some(8));
    p.finish(8);
    assert_eq!(p.running, vec![7]);
    assert_eq!(p.completed, vec![8]);
    p.finish(7);
    assert_eq!(p.running, Vec::<u64>::new());
    assert_eq!(p.completed, vec![8, 7]);
}
