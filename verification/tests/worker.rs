use jerry::dispose::Dispatch;
use jerry::executor::{Executor, ExecutorStatus};
use jerry::message::Message;
use jerry::worker::{ExecutorStep, Worker, WorkerStatus, WorkerStep};

fn statuses(worker: &Worker<u32>) -> Vec<ExecutorStatus> {
    (0..worker.fanout()).map(|e| worker.executor(e).unwrap().status).collect()
}

#[test]
fn an_executor_runs_jobs_until_its_stop_order() {
    let mut x = Executor::new(4);
    assert_eq!(x.id, 4);
    assert_eq!(x.status, ExecutorStatus::Idle);
    assert!(!x.joined);
    assert_eq!(x.on_message(Message::job(9u32)), Some(9));
    assert_eq!(x.status, ExecutorStatus::Busy);
    x.finish();
    assert_eq!(x.status, ExecutorStatus::Idle);
    assert_eq!(x.on_message(Message::<u32>::Terminate), None);
    assert_eq!(x.status, ExecutorStatus::Exited);
    x.join();
    assert!(x.joined);
    assert_eq!(x.status, ExecutorStatus::Exited);
    assert_eq!(x.id, 4);
}

#[test]
fn a_fault_ends_an_executor_for_good() {
    let mut x = Executor::new(0);
    assert_eq!(x.on_message(Message::job(1u32)), Some(1));
    x.fault();
    assert_eq!(x.status, ExecutorStatus::Faulted);
    assert!(!x.joined);
    x.join();
    assert!(x.joined);
    assert_eq!(x.status, ExecutorStatus::Faulted);
}

#[test]
fn a_new_worker_waits_with_all_its_executors() {
    let worker: Worker<u32> = Worker::new(3, 7);
    assert_eq!(worker.id(), 7);
    assert_eq!(worker.fanout(), 3);
    assert_eq!(worker.status(), WorkerStatus::Running);
    assert!(!worker.is_joined());
    assert_eq!(worker.queued(), 0);
    assert_eq!(statuses(&worker), vec![ExecutorStatus::Idle; 3]);
    for e in 0..3 {
        assert_eq!(worker.executor(e).unwrap().id, e);
    }
    assert!(worker.executor(3).is_none());
}

#[test]
fn a_worker_forwards_jobs_and_stops_its_executors() {
    let mut worker: Worker<u32> = Worker::new(2, 0);
    assert_eq!(worker.on_message(Message::job(5)), WorkerStep::Forwarded);
    assert_eq!(worker.on_message(Message::job(6)), WorkerStep::Forwarded);
    assert_eq!(worker.queued(), 2);
    assert_eq!(worker.status(), WorkerStatus::Running);
    assert!(!worker.can_join(0));
    assert_eq!(worker.on_message(Message::Terminate), WorkerStep::Stopped);
    assert_eq!(worker.status(), WorkerStatus::Stopping);
    // One stop order for each executor, behind the jobs.
    assert_eq!(worker.queued(), 4);
    assert!(matches!(worker.take(1), ExecutorStep::Run(5)));
    assert!(matches!(worker.take(1), ExecutorStep::Refused));
    assert!(matches!(worker.take(0), ExecutorStep::Run(6)));
    assert!(!worker.finish(2));
    assert!(worker.finish(0));
    assert!(!worker.finish(0));
    assert!(matches!(worker.take(0), ExecutorStep::Exit));
    assert!(matches!(worker.take(0), ExecutorStep::Refused));
    assert!(worker.fault(1));
    assert!(!worker.fault(1));
    assert_eq!(statuses(&worker), vec![ExecutorStatus::Exited, ExecutorStatus::Faulted]);
    assert!(!worker.can_join(1));
    assert!(!worker.join(1));
    assert!(worker.can_join(0));
    assert!(worker.join(0));
    assert!(!worker.join(0));
    assert_eq!(worker.status(), WorkerStatus::Stopping);
    assert!(worker.join(1));
    assert_eq!(worker.status(), WorkerStatus::Exited);
    assert!(!worker.is_joined());
    assert!(worker.reap());
    assert!(worker.is_joined());
    assert!(!worker.reap());
    assert_eq!(worker.queued(), 1);
}

#[test]
fn a_worker_is_not_joined_before_it_has_returned() {
    let mut worker: Worker<u32> = Worker::new(1, 0);
    assert!(!worker.reap());
    assert_eq!(worker.on_message(Message::Terminate), WorkerStep::Stopped);
    assert!(!worker.reap());
    assert!(matches!(worker.take(0), ExecutorStep::Exit));
    assert!(!worker.reap());
    assert!(worker.join(0));
    assert!(worker.reap());
    assert!(worker.is_joined());
}

#[test]
fn a_worker_without_executors_returns_on_its_stop_order() {
    let mut worker: Worker<u32> = Worker::new(0, 3);
    assert_eq!(worker.fanout(), 0);
    assert!(worker.executor(0).is_none());
    assert!(worker.is_at_rest());
    assert_eq!(worker.on_message(Message::job(1)), WorkerStep::Forwarded);
    assert!(matches!(worker.take(0), ExecutorStep::Refused));
    assert_eq!(worker.on_message(Message::Terminate), WorkerStep::Stopped);
    assert_eq!(worker.status(), WorkerStatus::Exited);
    // Nobody is there to run the job, and no stop order was needed.
    assert_eq!(worker.queued(), 1);
    assert!(!worker.join(0));
    assert!(worker.reap());
}

#[test]
fn settling_gives_every_job_to_the_first_executor_that_waits() {
    let mut worker: Worker<u32> = Worker::new(3, 2);
    assert_eq!(worker.on_message(Message::job(1)), WorkerStep::Forwarded);
    assert!(matches!(worker.take(0), ExecutorStep::Run(1)));
    assert!(worker.fault(0));
    for job in [2u32, 3, 4] {
        assert_eq!(worker.on_message(Message::job(job)), WorkerStep::Forwarded);
    }
    assert_eq!(worker.on_message(Message::Terminate), WorkerStep::Stopped);
    let mut ran: Vec<Dispatch<u32>> = vec![Dispatch { worker: 9, executor: 9, job: 0 }];
    worker.settle(&mut ran);
    let got: Vec<(usize, usize, u32)> =
        ran.iter().map(|d| (d.worker, d.executor, d.job)).collect();
    assert_eq!(got, vec![(9, 9, 0), (2, 1, 2), (2, 1, 3), (2, 1, 4)]);
    assert_eq!(worker.status(), WorkerStatus::Exited);
    assert_eq!(
        statuses(&worker),
        vec![ExecutorStatus::Faulted, ExecutorStatus::Exited, ExecutorStatus::Exited]
    );
    for e in 0..3 {
        assert!(worker.executor(e).unwrap().joined);
    }
    assert_eq!(worker.queued(), 1);
    assert!(!worker.is_joined());
}
