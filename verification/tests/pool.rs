use jerry::dispose::Dispatch;
use jerry::executor::ExecutorStatus;
use jerry::pool::{Phase, PoolError, ThreadPool};
use jerry::worker::{ExecutorStep, WorkerStatus, WorkerStep};
use std::sync::{Arc, Mutex};

type Job = Box<dyn FnOnce() + Send + 'static>;

fn pool_of(size: usize) -> ThreadPool<u32> {
    match ThreadPool::new(size) {
        Ok(pool) => pool,
        Err(_) => panic!("a pool of {} workers was refused", size),
    }
}

fn status_of(pool: &ThreadPool<u32>, w: usize, e: usize) -> ExecutorStatus {
    pool.worker(w).unwrap().executor(e).unwrap().status
}

/// Takes every thread through its next possible step, round after round,
/// until nothing moves; a job counts as run when it is received.
fn drive(pool: &mut ThreadPool<u32>, ran: &mut Vec<(usize, usize, u32)>) {
    let n = pool.size();
    loop {
        let mut moved = false;
        for w in 0..n {
            match pool.worker_recv(w) {
                WorkerStep::Forwarded | WorkerStep::Stopped => moved = true,
                WorkerStep::Empty | WorkerStep::Refused => {}
            }
            for e in 0..n {
                match pool.executor_recv(w, e) {
                    ExecutorStep::Run(job) => {
                        ran.push((w, e, job));
                        assert!(pool.executor_done(w, e));
                        moved = true;
                    }
                    ExecutorStep::Exit => moved = true,
                    ExecutorStep::Empty | ExecutorStep::Refused => {}
                }
                if pool.join_executor(w, e) {
                    moved = true;
                }
            }
            if pool.join_worker(w) {
                moved = true;
            }
        }
        if !moved {
            break;
        }
    }
}

#[test]
fn a_pool_of_no_workers_is_refused() {
    let made: Result<ThreadPool<u32>, PoolError> = ThreadPool::new(0);
    match made {
        Err(e) => {
            assert_eq!(e, PoolError::InvalidArgument);
            assert_eq!(e.message(), "Size should be unsigned");
        }
        Ok(_) => panic!("a pool of no workers was made"),
    }
}

#[test]
fn a_new_pool_has_size_workers_of_size_executors_all_waiting() {
    for size in 1..6usize {
        let pool = pool_of(size);
        assert_eq!(pool.size(), size);
        assert_eq!(pool.phase(), Phase::Live);
        assert!(!pool.is_disposed());
        assert_eq!(pool.queued(), 0);
        for w in 0..size {
            let worker = pool.worker(w).unwrap();
            assert_eq!(worker.id(), w);
            assert_eq!(worker.status(), WorkerStatus::Running);
            assert!(!worker.is_joined());
            assert_eq!(worker.fanout(), size);
            assert_eq!(worker.queued(), 0);
            for e in 0..size {
                let x = worker.executor(e).unwrap();
                assert_eq!(x.id, e);
                assert_eq!(x.status, ExecutorStatus::Idle);
                assert!(!x.joined);
            }
            assert!(worker.executor(size).is_none());
        }
        assert!(pool.worker(size).is_none());
    }
}

#[test]
fn ten_jobs_on_a_pool_of_two_each_run_once() {
    let log: Arc<Mutex<Vec<usize>>> = Arc::new(Mutex::new(Vec::new()));
    let mut pool: ThreadPool<Job> = match ThreadPool::new(2) {
        Ok(pool) => pool,
        Err(_) => panic!("a pool of 2 workers was refused"),
    };
    assert_eq!(pool.worker(0).unwrap().fanout() + pool.worker(1).unwrap().fanout(), 4);
    for index in 0..10usize {
        let log = Arc::clone(&log);
        pool.execute(Box::new(move || log.lock().unwrap().push(index)));
    }
    assert_eq!(pool.queued(), 10);
    let ran = pool.dispose();
    assert!(pool.is_disposed());
    assert_eq!(ran.len(), 10);
    for dispatch in ran {
        (dispatch.job)();
    }
    let mut seen = log.lock().unwrap().clone();
    seen.sort();
    assert_eq!(seen, vec![0, 1, 2, 3, 4, 5, 6, 7, 8, 9]);
}

#[test]
fn disposal_without_jobs_ends_every_thread() {
    let mut pool = pool_of(3);
    let ran = pool.dispose();
    assert!(ran.is_empty());
    assert!(pool.is_disposed());
    assert_eq!(pool.phase(), Phase::Disposed);
    assert_eq!(pool.queued(), 0);
    for w in 0..3 {
        let worker = pool.worker(w).unwrap();
        assert_eq!(worker.status(), WorkerStatus::Exited);
        assert!(worker.is_joined());
        assert_eq!(worker.queued(), 0);
        for e in 0..3 {
            let x = worker.executor(e).unwrap();
            assert_eq!(x.status, ExecutorStatus::Exited);
            assert!(x.joined);
        }
    }
}

#[test]
fn a_faulting_job_costs_one_executor_and_no_more() {
    let mut pool = pool_of(2);
    pool.execute(13);
    assert_eq!(pool.worker_recv(0), WorkerStep::Forwarded);
    assert!(matches!(pool.executor_recv(0, 0), ExecutorStep::Run(13)));
    assert!(pool.executor_fault(0, 0));
    assert_eq!(status_of(&pool, 0, 0), ExecutorStatus::Faulted);
    assert!(matches!(pool.executor_recv(0, 0), ExecutorStep::Refused));

    pool.execute(21);
    pool.execute(22);
    assert_eq!(pool.worker_recv(0), WorkerStep::Forwarded);
    assert_eq!(pool.worker_recv(1), WorkerStep::Forwarded);
    assert!(matches!(pool.executor_recv(0, 1), ExecutorStep::Run(21)));
    assert!(matches!(pool.executor_recv(1, 0), ExecutorStep::Run(22)));
    assert!(pool.executor_done(0, 1));
    assert!(pool.executor_done(1, 0));
    assert_eq!(status_of(&pool, 0, 0), ExecutorStatus::Faulted);
    assert_eq!(status_of(&pool, 0, 1), ExecutorStatus::Idle);

    pool.execute(23);
    let ran = pool.dispose();
    assert!(pool.is_disposed());
    assert_eq!(ran.len(), 1);
    assert_eq!((ran[0].worker, ran[0].executor, ran[0].job), (0, 1, 23));
    assert_eq!(status_of(&pool, 0, 0), ExecutorStatus::Faulted);
    assert_eq!(status_of(&pool, 0, 1), ExecutorStatus::Exited);
    assert!(pool.worker(0).unwrap().executor(0).unwrap().joined);
    // The stop order of the lost executor stays behind.
    assert_eq!(pool.worker(0).unwrap().queued(), 1);
    assert_eq!(pool.worker(1).unwrap().queued(), 0);
}

#[test]
fn every_job_runs_once_whatever_the_number() {
    for size in 1..4usize {
        for jobs in [0u32, 1, 2, 7, 25] {
            let mut pool = pool_of(size);
            let mut ran = Vec::new();
            for job in 0..jobs {
                pool.execute(job);
                if job % 3 == 0 {
                    // Let the threads take a round of turns in between.
                    let w = (job as usize) % size;
                    pool.worker_recv(w);
                    if let ExecutorStep::Run(j) = pool.executor_recv(w, 0) {
                        ran.push((w, 0, j));
                        assert!(pool.executor_done(w, 0));
                    }
                }
            }
            assert!(pool.shutdown());
            drive(&mut pool, &mut ran);
            assert!(pool.is_disposed());
            let mut seen: Vec<u32> = ran.iter().map(|r| r.2).collect();
            seen.sort();
            let expected: Vec<u32> = (0..jobs).collect();
            assert_eq!(seen, expected);
        }
    }
}

#[test]
fn an_idle_executor_takes_the_job_that_waits_while_others_are_busy() {
    let mut pool = pool_of(3);
    for job in [1u32, 2, 3] {
        pool.execute(job);
        assert_eq!(pool.worker_recv(0), WorkerStep::Forwarded);
    }
    assert!(matches!(pool.executor_recv(0, 0), ExecutorStep::Run(1)));
    assert!(matches!(pool.executor_recv(0, 1), ExecutorStep::Run(2)));
    assert_eq!(status_of(&pool, 0, 0), ExecutorStatus::Busy);
    assert_eq!(status_of(&pool, 0, 1), ExecutorStatus::Busy);
    assert_eq!(pool.worker(0).unwrap().queued(), 1);
    // A busy executor receives nothing; the idle one gets the third job.
    assert!(matches!(pool.executor_recv(0, 0), ExecutorStep::Refused));
    assert!(matches!(pool.executor_recv(0, 2), ExecutorStep::Run(3)));
    assert_eq!(pool.worker(0).unwrap().queued(), 0);
    assert!(matches!(pool.executor_recv(0, 2), ExecutorStep::Refused));
    assert!(pool.executor_done(0, 2));
    assert!(matches!(pool.executor_recv(0, 2), ExecutorStep::Empty));
}

#[test]
fn stop_orders_are_met_only_after_the_jobs_before_them() {
    let mut pool = pool_of(2);
    for job in 0..4u32 {
        pool.execute(job);
    }
    assert!(pool.shutdown());
    assert_eq!(pool.phase(), Phase::Closing);
    assert_eq!(pool.queued(), 6);
    // Worker 1 forwards all four jobs before it meets its stop order.
    for _ in 0..4 {
        assert_eq!(pool.worker_recv(1), WorkerStep::Forwarded);
    }
    assert_eq!(pool.worker(1).unwrap().queued(), 4);
    assert_eq!(pool.worker_recv(1), WorkerStep::Stopped);
    assert_eq!(pool.worker(1).unwrap().status(), WorkerStatus::Stopping);
    assert_eq!(pool.worker(1).unwrap().queued(), 6);
    assert_eq!(pool.worker_recv(1), WorkerStep::Refused);
    // Its executors receive the jobs in the order of submission, then stop.
    assert!(matches!(pool.executor_recv(1, 1), ExecutorStep::Run(0)));
    assert!(matches!(pool.executor_recv(1, 0), ExecutorStep::Run(1)));
    assert!(pool.executor_done(1, 1));
    assert!(matches!(pool.executor_recv(1, 1), ExecutorStep::Run(2)));
    assert!(pool.executor_done(1, 0));
    assert!(matches!(pool.executor_recv(1, 0), ExecutorStep::Run(3)));
    assert!(pool.executor_done(1, 0));
    assert!(matches!(pool.executor_recv(1, 0), ExecutorStep::Exit));
    assert_eq!(status_of(&pool, 1, 0), ExecutorStatus::Exited);
    // Executor 1 is still in a job: it cannot be joined, nor can the worker.
    assert!(pool.join_executor(1, 0));
    assert!(!pool.join_executor(1, 1));
    assert!(!pool.join_worker(1));
    assert!(pool.executor_done(1, 1));
    assert!(matches!(pool.executor_recv(1, 1), ExecutorStep::Exit));
    assert!(pool.join_executor(1, 1));
    assert_eq!(pool.worker(1).unwrap().status(), WorkerStatus::Exited);
    // Workers are joined in creation order.
    assert!(!pool.join_worker(1));
    assert_eq!(pool.worker_recv(0), WorkerStep::Stopped);
    assert_eq!(pool.queued(), 0);
    assert!(matches!(pool.executor_recv(0, 0), ExecutorStep::Exit));
    assert!(matches!(pool.executor_recv(0, 1), ExecutorStep::Exit));
    assert!(!pool.join_executor(0, 1));
    assert!(pool.join_executor(0, 0));
    assert!(pool.join_executor(0, 1));
    assert!(pool.join_worker(0));
    assert_eq!(pool.phase(), Phase::Closing);
    assert!(pool.join_worker(1));
    assert_eq!(pool.phase(), Phase::Disposed);
    assert!(!pool.join_worker(1));
}

#[test]
fn steps_that_cannot_happen_change_nothing() {
    let mut pool = pool_of(2);
    assert_eq!(pool.worker_recv(0), WorkerStep::Empty);
    assert_eq!(pool.worker_recv(2), WorkerStep::Refused);
    assert!(matches!(pool.executor_recv(0, 0), ExecutorStep::Empty));
    assert!(matches!(pool.executor_recv(0, 2), ExecutorStep::Refused));
    assert!(matches!(pool.executor_recv(2, 0), ExecutorStep::Refused));
    assert!(!pool.executor_done(0, 0));
    assert!(!pool.executor_fault(0, 0));
    assert!(!pool.executor_done(5, 0));
    assert!(!pool.executor_fault(0, 5));
    assert!(!pool.join_executor(0, 0));
    assert!(!pool.join_executor(3, 0));
    assert!(!pool.join_worker(0));
    assert!(!pool.join_worker(9));
    assert_eq!(pool.phase(), Phase::Live);
    assert_eq!(pool.queued(), 0);
    assert_eq!(status_of(&pool, 0, 0), ExecutorStatus::Idle);
    assert!(pool.shutdown());
    assert_eq!(pool.queued(), 2);
    assert!(!pool.shutdown());
    assert_eq!(pool.queued(), 2);
    assert_eq!(pool.phase(), Phase::Closing);
}

#[test]
fn disposal_hands_the_jobs_back_in_order_with_their_executor() {
    let mut pool = pool_of(2);
    for job in [10u32, 11, 12, 13, 14] {
        pool.execute(job);
    }
    // Worker 1 has forwarded two jobs already; one of them is done.
    assert_eq!(pool.worker_recv(1), WorkerStep::Forwarded);
    assert_eq!(pool.worker_recv(1), WorkerStep::Forwarded);
    assert!(matches!(pool.executor_recv(1, 1), ExecutorStep::Run(10)));
    assert!(pool.executor_done(1, 1));
    let ran: Vec<Dispatch<u32>> = pool.dispose();
    let got: Vec<(usize, usize, u32)> =
        ran.iter().map(|d| (d.worker, d.executor, d.job)).collect();
    assert_eq!(got, vec![(0, 0, 12), (0, 0, 13), (0, 0, 14), (1, 0, 11)]);
    assert!(pool.is_disposed());
    assert_eq!(pool.queued(), 0);
    assert_eq!(pool.worker(0).unwrap().queued(), 0);
    assert_eq!(pool.worker(1).unwrap().queued(), 0);
}

#[test]
fn a_worker_without_executors_left_keeps_its_jobs() {
    let mut pool = pool_of(1);
    pool.execute(1);
    assert_eq!(pool.worker_recv(0), WorkerStep::Forwarded);
    assert!(matches!(pool.executor_recv(0, 0), ExecutorStep::Run(1)));
    assert!(pool.executor_fault(0, 0));
    pool.execute(2);
    pool.execute(3);
    let ran = pool.dispose();
    assert!(ran.is_empty());
    assert!(pool.is_disposed());
    let worker = pool.worker(0).unwrap();
    assert_eq!(worker.status(), WorkerStatus::Exited);
    assert!(worker.is_joined());
    // Two jobs and the stop order of the lost executor are left.
    assert_eq!(worker.queued(), 3);
    assert_eq!(worker.executor(0).unwrap().status, ExecutorStatus::Faulted);
    assert!(worker.executor(0).unwrap().joined);
}

#[test]
fn a_job_submitted_after_disposal_has_begun_comes_back() {
    let mut pool = pool_of(2);
    assert_eq!(pool.try_execute(1), Ok(()));
    assert_eq!(pool.queued(), 1);
    assert!(pool.shutdown());
    assert_eq!(pool.try_execute(2), Err(2));
    assert_eq!(pool.queued(), 3);
    let mut ran = Vec::new();
    drive(&mut pool, &mut ran);
    assert!(pool.is_disposed());
    assert_eq!(pool.try_execute(3), Err(3));
    assert_eq!(ran.len(), 1);
    assert_eq!(ran[0].2, 1);
}

#[test]
fn disposal_in_one_call_waits_for_no_job() {
    let mut pool = pool_of(2);
    pool.execute(1);
    pool.execute(2);
    assert!(pool.is_at_rest());
    assert_eq!(pool.worker_recv(0), WorkerStep::Forwarded);
    assert_eq!(pool.executor_recv(0, 1), ExecutorStep::Run(1));
    assert!(!pool.is_at_rest());
    assert!(!pool.worker(0).unwrap().is_at_rest());
    assert!(pool.worker(1).unwrap().is_at_rest());
    // A job is running: nothing happens.
    assert_eq!(pool.try_dispose(), None);
    assert_eq!(pool.phase(), Phase::Live);
    assert_eq!(pool.queued(), 1);
    assert_eq!(status_of(&pool, 0, 1), ExecutorStatus::Busy);
    assert!(pool.executor_done(0, 1));
    assert!(pool.is_at_rest());
    assert_eq!(
        pool.try_dispose(),
        Some(vec![Dispatch { worker: 0, executor: 0, job: 2 }])
    );
    assert!(pool.is_disposed());
    // A pool is disposed of once.
    assert_eq!(pool.try_dispose(), None);
    assert!(pool.is_disposed());
}

#[test]
fn disposal_takes_no_more_steps_than_the_work_that_is_left() {
    for size in 1..4usize {
        let mut pool = pool_of(size);
        for job in 0..7u32 {
            pool.execute(job);
        }
        assert_eq!(pool.worker_recv(0), WorkerStep::Forwarded);
        assert_eq!(pool.executor_recv(0, 0), ExecutorStep::Run(0));
        assert!(pool.shutdown());
        // Two steps for each message of a private channel, one for the job
        // that runs, one for each join; each message of the shared channel
        // counts with what it can bring about further down.
        let mut bound = (2 * size + 2) * pool.queued();
        for w in 0..size {
            bound += 2 * pool.worker(w).unwrap().queued() + size + 1;
        }
        bound += 1;
        let mut steps = 0;
        assert!(pool.executor_done(0, 0));
        steps += 1;
        loop {
            let mut moved = false;
            for w in 0..size {
                let step = pool.worker_recv(w);
                if step == WorkerStep::Forwarded || step == WorkerStep::Stopped {
                    steps += 1;
                    moved = true;
                }
                for e in 0..size {
                    match pool.executor_recv(w, e) {
                        ExecutorStep::Run(_) => {
                            assert!(pool.executor_done(w, e));
                            steps += 2;
                            moved = true;
                        }
                        ExecutorStep::Exit => {
                            steps += 1;
                            moved = true;
                        }
                        ExecutorStep::Empty | ExecutorStep::Refused => {}
                    }
                    if pool.join_executor(w, e) {
                        steps += 1;
                        moved = true;
                    }
                }
                if pool.join_worker(w) {
                    steps += 1;
                    moved = true;
                }
            }
            if !moved {
                break;
            }
        }
        assert!(pool.is_disposed());
        assert!(steps <= bound, "{} steps, bound {}", steps, bound);
    }
}

#[test]
fn jobs_wait_in_line_while_every_executor_is_busy() {
    let mut pool = pool_of(1);
    for job in [1u32, 2, 3] {
        pool.execute(job);
    }
    assert_eq!(pool.worker_recv(0), WorkerStep::Forwarded);
    assert_eq!(pool.executor_recv(0, 0), ExecutorStep::Run(1));
    // The only executor is busy: what comes in waits, in the order of
    // submission.
    assert_eq!(pool.worker_recv(0), WorkerStep::Forwarded);
    assert_eq!(pool.worker_recv(0), WorkerStep::Forwarded);
    assert_eq!(pool.worker_recv(0), WorkerStep::Empty);
    assert_eq!(pool.executor_recv(0, 0), ExecutorStep::Refused);
    assert_eq!(pool.worker(0).unwrap().queued(), 2);
    assert!(pool.executor_done(0, 0));
    assert_eq!(pool.executor_recv(0, 0), ExecutorStep::Run(2));
    assert!(pool.executor_done(0, 0));
    assert_eq!(pool.executor_recv(0, 0), ExecutorStep::Run(3));
    assert!(pool.executor_done(0, 0));
    assert_eq!(pool.executor_recv(0, 0), ExecutorStep::Empty);
    assert_eq!(pool.try_dispose().map(|ran| ran.len()), Some(0));
    assert!(pool.is_disposed());
}
