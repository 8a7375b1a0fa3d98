//! The pool as a whole: one shared channel, the workers that draw from it,
//! and the rules by which jobs travel down and threads are stopped.

use crate::channel::{
    jobs_of, lemma_add_stops, lemma_head_stop, lemma_no_stops, lemma_ordered_drop_first,
    lemma_ordered_push, lemma_queue_drop_first, lemma_queue_push, lemma_queue_shape, ordered,
    stops, terminates, wrap, Channel,
};
use crate::count::{count_where, lemma_count_all, lemma_count_update};
use crate::dispose::{jobs_in, Dispatch};
use crate::event::Event;
use crate::executor::ExecutorStatus;
use crate::message::Message;
use crate::worker::{ExecutorStep, Worker, WorkerStatus, WorkerStep, WorkerView};
use vstd::prelude::*;

verus! {

/// Where the pool stands in its life.
#[derive(Clone, Copy, PartialEq, Eq, Debug, Structural)]
pub enum Phase {
    /// Accepting jobs.
    Live,
    /// Disposal has begun: the stop orders are out, threads are being joined.
    Closing,
    /// Every thread has ended and has been joined.
    Disposed,
}

/// Why a pool could not be made.
#[derive(Clone, Copy, PartialEq, Eq, Debug, Structural)]
pub enum PoolError {
    /// A pool of no workers was asked for.
    InvalidArgument,
}

impl PoolError {
    /// The error in words.
    pub fn message(&self) -> (text: &'static str)
        ensures
            text@ == "Size should be unsigned"@,
    {
        "Size should be unsigned"
    }
}

/// The predicate "is in its dispatch loop".
pub open spec fn is_running<J>() -> spec_fn(WorkerView<J>) -> bool {
    |w: WorkerView<J>| w.status is Running
}

/// The pool as the protocol sees it.
pub struct PoolView<J> {
    pub phase: Phase,
    /// The shared channel that feeds the workers.
    pub queue: Seq<Message<J>>,
    pub workers: Seq<WorkerView<J>>,
}

impl<J> PoolView<J> {
    /// A pool that has just been created with `size` workers of `size`
    /// executors each.
    pub open spec fn init(size: nat) -> PoolView<J> {
        PoolView {
            phase: Phase::Live,
            queue: Seq::empty(),
            workers: Seq::new(size, |w: int| WorkerView::fresh(w as usize, size)),
        }
    }

    /// What always holds of a pool.
    pub open spec fn inv(self) -> bool {
        let n = self.workers.len();
        // There is a worker, and each worker is sound, knows its place and
        // has as many executors as the pool has workers.
        &&& 1 <= n <= usize::MAX
        &&& forall|w: int|
            0 <= w < n ==> (#[trigger] self.workers[w]).id == w && self.workers[w].inv()
                && self.workers[w].executors.len() == n
        // Workers are joined in creation order.
        &&& forall|a: int, b: int|
            0 <= a <= b < n && (#[trigger] self.workers[b]).joined ==> (
            #[trigger] self.workers[a]).joined
        // In the shared channel every stop order stands behind every job.
        &&& ordered(self.queue)
        // Before disposal no stop order is out and every worker is in its
        // loop.
        &&& self.phase is Live ==> terminates(self.queue) == 0 && forall|w: int|
            0 <= w < n ==> (#[trigger] self.workers[w]).status is Running
        // From then on there is exactly one stop order for each worker that
        // is still in its loop.
        &&& !(self.phase is Live) ==> terminates(self.queue) == count_where(
            self.workers,
            is_running(),
        )
        // The pool is disposed exactly when its last worker is joined.
        &&& self.phase is Disposed <==> self.workers[n - 1].joined
        // A worker leaves its loop only when no job is left in the shared
        // channel.
        &&& forall|w: int|
            0 <= w < n && !((#[trigger] self.workers[w]).status is Running) ==> jobs_of(
                self.queue,
            ).len() == 0
    }

    /// The pool with worker `w` replaced.
    pub open spec fn with_worker(self, w: int, worker: WorkerView<J>) -> PoolView<J> {
        PoolView { workers: self.workers.update(w, worker), ..self }
    }

    /// The pool after `job` has been submitted, if it accepts jobs.
    pub open spec fn submit(self, job: J) -> PoolView<J> {
        if self.phase is Live {
            PoolView { queue: self.queue.push(Message::NewJob(job)), ..self }
        } else {
            self
        }
    }

    /// The pool after disposal has begun, if it had not: one stop order for
    /// each worker stands behind every job submitted so far.
    pub open spec fn close(self) -> PoolView<J> {
        if self.phase is Live {
            PoolView {
                phase: Phase::Closing,
                queue: self.queue + stops(self.workers.len()),
                ..self
            }
        } else {
            self
        }
    }

    /// Whether worker `w` can receive from the shared channel now.
    pub open spec fn can_worker_recv(self, w: int) -> bool {
        &&& 0 <= w < self.workers.len()
        &&& self.workers[w].status is Running
        &&& self.queue.len() > 0
    }

    /// The pool after worker `w` has received the oldest message of the
    /// shared channel and handled it, if it could.
    pub open spec fn worker_recv(self, w: int) -> PoolView<J> {
        if self.can_worker_recv(w) {
            PoolView {
                queue: self.queue.drop_first(),
                workers: self.workers.update(w, self.workers[w].on_message(self.queue[0])),
                ..self
            }
        } else {
            self
        }
    }

    /// What worker `w` gets when it tries to receive.
    pub open spec fn worker_step(self, w: int) -> WorkerStep {
        if !(0 <= w < self.workers.len() && self.workers[w].status is Running) {
            WorkerStep::Refused
        } else if self.queue.len() == 0 {
            WorkerStep::Empty
        } else {
            match self.queue[0] {
                Message::NewJob(_) => WorkerStep::Forwarded,
                Message::Terminate => WorkerStep::Stopped,
            }
        }
    }

    /// Whether executor `e` of worker `w` can receive now.
    pub open spec fn can_executor_recv(self, w: int, e: int) -> bool {
        0 <= w < self.workers.len() && self.workers[w].can_take(e)
    }

    /// The pool after executor `e` of worker `w` has received from the
    /// worker's private channel, if it could.
    pub open spec fn executor_recv(self, w: int, e: int) -> PoolView<J> {
        if self.can_executor_recv(w, e) {
            self.with_worker(w, self.workers[w].take(e))
        } else {
            self
        }
    }

    /// What executor `e` of worker `w` gets when it tries to receive.
    pub open spec fn executor_step(self, w: int, e: int) -> ExecutorStep<J> {
        if 0 <= w < self.workers.len() {
            self.workers[w].take_step(e)
        } else {
            ExecutorStep::Refused
        }
    }

    /// Whether executor `e` of worker `w` is running a job.
    pub open spec fn is_busy(self, w: int, e: int) -> bool {
        0 <= w < self.workers.len() && self.workers[w].is_busy(e)
    }

    /// The pool after the job of executor `e` of worker `w` has ended and
    /// left the executor with `status`, if it was running one.
    pub open spec fn executor_release(self, w: int, e: int, status: ExecutorStatus) -> PoolView<
        J,
    > {
        if self.is_busy(w, e) {
            self.with_worker(w, self.workers[w].release(e, status))
        } else {
            self
        }
    }

    /// Whether worker `w` can join its executor `e` now.
    pub open spec fn can_join_executor(self, w: int, e: int) -> bool {
        0 <= w < self.workers.len() && self.workers[w].can_join(e)
    }

    /// The pool after worker `w` has joined its executor `e`, if it could.
    pub open spec fn join_executor(self, w: int, e: int) -> PoolView<J> {
        if self.can_join_executor(w, e) {
            self.with_worker(w, self.workers[w].join(e))
        } else {
            self
        }
    }

    /// Whether the pool can join worker `w` now: disposal is under way, the
    /// worker has returned, and it is the next in creation order.
    pub open spec fn can_join_worker(self, w: int) -> bool {
        &&& self.phase is Closing
        &&& 0 <= w < self.workers.len()
        &&& self.workers[w].status is Exited
        &&& !self.workers[w].joined
        &&& w > 0 ==> self.workers[w - 1].joined
    }

    /// The pool after it has joined worker `w`, if it could. With the last
    /// worker joined the pool is disposed.
    pub open spec fn join_worker(self, w: int) -> PoolView<J> {
        if self.can_join_worker(w) {
            PoolView {
                phase: if w == self.workers.len() - 1 {
                    Phase::Disposed
                } else {
                    Phase::Closing
                },
                workers: self.workers.update(w, self.workers[w].after_join()),
                ..self
            }
        } else {
            self
        }
    }

    /// A fresh pool satisfies the invariant, and all its workers are in their
    /// loops.
    pub proof fn lemma_init_inv(size: nat)
        requires
            1 <= size <= usize::MAX,
        ensures
            Self::init(size).inv(),
            count_where(Self::init(size).workers, is_running()) == size,
    {
        let s = Self::init(size);
        lemma_no_stops(s.queue);
        lemma_count_all(s.workers, is_running());
        assert forall|w: int| 0 <= w < size implies (#[trigger] s.workers[w]).inv() by {
            WorkerView::<J>::lemma_fresh_inv(w as usize, size);
        }
    }

    /// Replacing a worker by one that satisfies its own invariant, has the
    /// same place and executors, and is in its loop and joined exactly if the
    /// old one was, keeps the pool's invariant.
    pub proof fn lemma_with_worker_inv(self, w: int, worker: WorkerView<J>)
        requires
            self.inv(),
            0 <= w < self.workers.len(),
            worker.inv(),
            worker.id == w,
            worker.executors.len() == self.workers.len(),
            worker.joined == self.workers[w].joined,
            worker.status is Running == self.workers[w].status is Running,
        ensures
            self.with_worker(w, worker).inv(),
    {
        let next = self.with_worker(w, worker);
        lemma_count_update(self.workers, is_running(), w, worker);
        assert forall|a: int, b: int|
            0 <= a <= b < next.workers.len() && (#[trigger] next.workers[b]).joined implies (
        #[trigger] next.workers[a]).joined by {
            assert(self.workers[b].joined);
            assert(self.workers[a].joined);
        }
        assert forall|v: int|
            0 <= v < next.workers.len() && !((#[trigger] next.workers[v]).status is Running)
            implies jobs_of(next.queue).len() == 0 by {
            assert(!(self.workers[v].status is Running));
        }
    }

    /// A submission keeps the invariant.
    pub proof fn lemma_submit_inv(self, job: J)
        requires
            self.inv(),
        ensures
            self.submit(job).inv(),
    {
        if self.phase is Live {
            let m = Message::NewJob(job);
            lemma_queue_push(self.queue, m);
            lemma_ordered_push(self.queue, m);
        }
    }

    /// The start of disposal keeps the invariant.
    pub proof fn lemma_close_inv(self)
        requires
            self.inv(),
        ensures
            self.close().inv(),
    {
        if self.phase is Live {
            lemma_add_stops(self.queue, self.workers.len());
            lemma_count_all(self.workers, is_running());
        }
    }

    /// A receive by a worker keeps the invariant.
    pub proof fn lemma_worker_recv_inv(self, w: int)
        requires
            self.inv(),
        ensures
            self.worker_recv(w).inv(),
    {
        if self.can_worker_recv(w) {
            let m = self.queue[0];
            let next = self.worker_recv(w);
            let worker = self.workers[w].on_message(m);
            self.workers[w].lemma_on_message_inv(m);
            lemma_queue_drop_first(self.queue);
            lemma_ordered_drop_first(self.queue);
            lemma_no_stops(self.queue);
            lemma_count_update(self.workers, is_running(), w, worker);
            assert forall|a: int, b: int|
                0 <= a <= b < next.workers.len() && (#[trigger] next.workers[b]).joined implies (
            #[trigger] next.workers[a]).joined by {
                assert(self.workers[b].joined);
                assert(self.workers[a].joined);
            }
            match m {
                Message::NewJob(_) => {
                    assert(jobs_of(self.queue).len() > 0);
                    assert forall|v: int| 0 <= v < next.workers.len() implies (
                    #[trigger] next.workers[v]).status is Running by {
                        assert(self.workers[v].status is Running);
                    }
                },
                Message::Terminate => {
                    lemma_head_stop(self.queue);
                },
            }
        }
    }

    /// A receive by an executor keeps the invariant.
    pub proof fn lemma_executor_recv_inv(self, w: int, e: int)
        requires
            self.inv(),
        ensures
            self.executor_recv(w, e).inv(),
    {
        if self.can_executor_recv(w, e) {
            self.workers[w].lemma_take_inv(e);
            self.lemma_with_worker_inv(w, self.workers[w].take(e));
        }
    }

    /// The end of a job, in either way, keeps the invariant.
    pub proof fn lemma_executor_release_inv(self, w: int, e: int, status: ExecutorStatus)
        requires
            self.inv(),
            status is Idle || status is Faulted,
        ensures
            self.executor_release(w, e, status).inv(),
    {
        if self.is_busy(w, e) {
            self.workers[w].lemma_release_inv(e, status);
            self.lemma_with_worker_inv(w, self.workers[w].release(e, status));
        }
    }

    /// A join of an executor keeps the invariant.
    pub proof fn lemma_join_executor_inv(self, w: int, e: int)
        requires
            self.inv(),
        ensures
            self.join_executor(w, e).inv(),
    {
        if self.can_join_executor(w, e) {
            self.workers[w].lemma_join_inv(e);
            self.lemma_with_worker_inv(w, self.workers[w].join(e));
        }
    }

    /// A join of a worker keeps the invariant.
    pub proof fn lemma_join_worker_inv(self, w: int)
        requires
            self.inv(),
        ensures
            self.join_worker(w).inv(),
    {
        if self.can_join_worker(w) {
            let next = self.join_worker(w);
            let worker = self.workers[w].after_join();
            lemma_count_update(self.workers, is_running(), w, worker);
            assert forall|a: int, b: int|
                0 <= a <= b < next.workers.len() && (#[trigger] next.workers[b]).joined implies (
            #[trigger] next.workers[a]).joined by {
                if b == w {
                    if a < w {
                        assert(self.workers[w - 1].joined);
                    }
                } else {
                    assert(self.workers[b].joined);
                    if a != w {
                        assert(self.workers[a].joined);
                    }
                }
            }
            assert forall|v: int|
                0 <= v < next.workers.len() && !((#[trigger] next.workers[v]).status is Running)
                implies jobs_of(next.queue).len() == 0 by {
                assert(!(self.workers[v].status is Running));
            }
        }
    }
}

/// The pool: the shared channel, the workers, and where disposal stands.
///
/// The pool holds no thread of its own. Whoever drives it, one thread per
/// worker and executor or a single loop, reports each receive, each end of a
/// job and each join, and the pool says what follows.
pub struct ThreadPool<J> {
    workers: Vec<Worker<J>>,
    sender: Channel<J>,
    phase: Phase,
}

impl<J> View for ThreadPool<J> {
    type V = PoolView<J>;

    closed spec fn view(&self) -> PoolView<J> {
        PoolView {
            phase: self.phase,
            queue: self.sender@,
            workers: Seq::new(self.workers@.len(), |w: int| self.workers@[w]@),
        }
    }
}

impl<J> ThreadPool<J> {
    /// Creates a pool of `size` workers, each with `size` executors of its
    /// own, all waiting for work. A pool of no workers is refused.
    pub fn new(size: usize) -> (r: Result<ThreadPool<J>, PoolError>)
        ensures
            size == 0 <==> r is Err,
            r matches Err(e) ==> e == PoolError::InvalidArgument,
            r matches Ok(pool) ==> {
                &&& pool@ == PoolView::<J>::init(size as nat)
                &&& pool@.inv()
                &&& pool@.workers.len() == size
                &&& count_where(pool@.workers, is_running()) == size
            },
    {
        if size > 0 {
            let mut workers: Vec<Worker<J>> = Vec::with_capacity(size);
            let mut id: usize = 0;
            while id < size
                invariant
                    id <= size,
                    workers@.len() == id,
                    forall|w: int|
                        0 <= w < id ==> (#[trigger] workers@[w])@ == WorkerView::<J>::fresh(
                            w as usize,
                            size as nat,
                        ),
                decreases size - id,
            {
                workers.push(Worker::new(size, id));
                id += 1;
            }
            let pool = ThreadPool { workers, sender: Channel::new(), phase: Phase::Live };
            proof {
                assert(pool@.workers =~= PoolView::<J>::init(size as nat).workers);
                PoolView::<J>::lemma_init_inv(size as nat);
            }
            Ok(pool)
        } else {
            Err(PoolError::InvalidArgument)
        }
    }

    /// Submits `job`: it goes to the end of the shared channel, behind every
    /// job submitted before. The pool must not have been disposed of.
    pub fn execute(&mut self, job: J)
        requires
            old(self)@.inv(),
            old(self)@.phase is Live,
        ensures
            final(self)@ == old(self)@.submit(job),
            final(self)@.inv(),
    {
        proof {
            old(self)@.lemma_submit_inv(job);
        }
        self.sender.send(Message::NewJob(job));
    }

    /// Submits `job` if the pool accepts jobs, and hands it back if disposal
    /// has begun.
    pub fn try_execute(&mut self, job: J) -> (r: Result<(), J>)
        requires
            old(self)@.inv(),
        ensures
            final(self)@ == old(self)@.submit(job),
            final(self)@.inv(),
            r == (if old(self)@.phase is Live {
                Ok(())
            } else {
                Err(job)
            }),
    {
        if self.phase == Phase::Live {
            self.execute(job);
            Ok(())
        } else {
            Err(job)
        }
    }

    /// Begins disposal: sends one stop order for each worker. Returns whether
    /// it did; it does nothing where disposal had begun before.
    pub fn shutdown(&mut self) -> (began: bool)
        requires
            old(self)@.inv(),
        ensures
            final(self)@ == old(self)@.close(),
            final(self)@.inv(),
            began == old(self)@.phase is Live,
    {
        proof {
            old(self)@.lemma_close_inv();
        }
        if self.phase == Phase::Live {
            self.phase = Phase::Closing;
            self.sender.send_stops(self.workers.len());
            true
        } else {
            false
        }
    }

    /// One turn of the loop of worker `w`: it receives the oldest message of
    /// the shared channel and handles it, if it is in its loop and there is
    /// one.
    pub fn worker_recv(&mut self, w: usize) -> (step: WorkerStep)
        requires
            old(self)@.inv(),
        ensures
            final(self)@ == old(self)@.worker_recv(w as int),
            final(self)@.inv(),
            step == old(self)@.worker_step(w as int),
    {
        proof {
            old(self)@.lemma_worker_recv_inv(w as int);
        }
        if w >= self.workers.len() {
            return WorkerStep::Refused;
        }
        if self.workers[w].status() != WorkerStatus::Running {
            return WorkerStep::Refused;
        }
        match self.sender.recv() {
            None => WorkerStep::Empty,
            Some(m) => {
                assert(old(self)@.workers[w as int].inv());
                let step = self.workers[w].on_message(m);
                assert(self@.workers =~= old(self)@.worker_recv(w as int).workers);
                step
            },
        }
    }

    /// One turn of the loop of executor `e` of worker `w`: it receives the
    /// oldest message of the worker's private channel, if it is waiting and
    /// there is one. A job that it receives is handed back to be run.
    pub fn executor_recv(&mut self, w: usize, e: usize) -> (step: ExecutorStep<J>)
        requires
            old(self)@.inv(),
        ensures
            final(self)@ == old(self)@.executor_recv(w as int, e as int),
            final(self)@.inv(),
            step == old(self)@.executor_step(w as int, e as int),
    {
        proof {
            old(self)@.lemma_executor_recv_inv(w as int, e as int);
        }
        if w >= self.workers.len() {
            return ExecutorStep::Refused;
        }
        assert(old(self)@.workers[w as int].inv());
        let step = self.workers[w].take(e);
        assert(self@.workers =~= old(self)@.executor_recv(w as int, e as int).workers);
        step
    }

    /// The job that executor `e` of worker `w` was running has returned.
    /// Returns whether it was running one.
    pub fn executor_done(&mut self, w: usize, e: usize) -> (done: bool)
        requires
            old(self)@.inv(),
        ensures
            final(self)@ == old(self)@.executor_release(w as int, e as int, ExecutorStatus::Idle),
            final(self)@.inv(),
            done == old(self)@.is_busy(w as int, e as int),
    {
        proof {
            old(self)@.lemma_executor_release_inv(w as int, e as int, ExecutorStatus::Idle);
        }
        if w >= self.workers.len() {
            return false;
        }
        assert(old(self)@.workers[w as int].inv());
        let done = self.workers[w].finish(e);
        assert(self@.workers =~= old(self)@.executor_release(
            w as int,
            e as int,
            ExecutorStatus::Idle,
        ).workers);
        done
    }

    /// The job that executor `e` of worker `w` was running has raised a
    /// fault and ended the executor's thread. Returns whether it was running
    /// one.
    pub fn executor_fault(&mut self, w: usize, e: usize) -> (done: bool)
        requires
            old(self)@.inv(),
        ensures
            final(self)@ == old(self)@.executor_release(
                w as int,
                e as int,
                ExecutorStatus::Faulted,
            ),
            final(self)@.inv(),
            done == old(self)@.is_busy(w as int, e as int),
    {
        proof {
            old(self)@.lemma_executor_release_inv(w as int, e as int, ExecutorStatus::Faulted);
        }
        if w >= self.workers.len() {
            return false;
        }
        assert(old(self)@.workers[w as int].inv());
        let done = self.workers[w].fault(e);
        assert(self@.workers =~= old(self)@.executor_release(
            w as int,
            e as int,
            ExecutorStatus::Faulted,
        ).workers);
        done
    }

    /// Worker `w` joins its executor `e`, if the worker is out of its loop
    /// and the executor has ended and is the next in line. Returns whether
    /// it did.
    pub fn join_executor(&mut self, w: usize, e: usize) -> (done: bool)
        requires
            old(self)@.inv(),
        ensures
            final(self)@ == old(self)@.join_executor(w as int, e as int),
            final(self)@.inv(),
            done == old(self)@.can_join_executor(w as int, e as int),
    {
        proof {
            old(self)@.lemma_join_executor_inv(w as int, e as int);
        }
        if w >= self.workers.len() {
            return false;
        }
        assert(old(self)@.workers[w as int].inv());
        let done = self.workers[w].join(e);
        assert(self@.workers =~= old(self)@.join_executor(w as int, e as int).workers);
        done
    }

    /// The pool joins worker `w`, if disposal is under way and the worker
    /// has returned and is the next in creation order. Returns whether it
    /// did.
    pub fn join_worker(&mut self, w: usize) -> (done: bool)
        requires
            old(self)@.inv(),
        ensures
            final(self)@ == old(self)@.join_worker(w as int),
            final(self)@.inv(),
            done == old(self)@.can_join_worker(w as int),
    {
        proof {
            old(self)@.lemma_join_worker_inv(w as int);
        }
        if self.phase != Phase::Closing || w >= self.workers.len() {
            return false;
        }
        if self.workers[w].status() != WorkerStatus::Exited || self.workers[w].is_joined() {
            return false;
        }
        if w > 0 && !self.workers[w - 1].is_joined() {
            return false;
        }
        assert(old(self)@.workers[w as int].inv());
        self.workers[w].reap();
        if w == self.workers.len() - 1 {
            self.phase = Phase::Disposed;
        }
        assert(self@.workers =~= old(self)@.join_worker(w as int).workers);
        true
    }

    /// Disposes of the pool in one call, for a caller that drives the pool
    /// alone. Every thread has its turn in creation order: the stop orders go
    /// out, each worker forwards what it receives until it meets its stop
    /// order, its executors receive until they meet theirs and are joined,
    /// and the worker is joined. The jobs that executors receive on the way
    /// are handed back, oldest first, each with the executor that received
    /// it, and count as run. All of it is a run of events of the pool.
    ///
    /// The pool must be live, and no executor may be in the middle of a job:
    /// its end could not be reported while this call lasts.
    pub fn dispose(&mut self) -> (ran: Vec<Dispatch<J>>)
        requires
            old(self)@.inv(),
            old(self)@.phase is Live,
            old(self)@.at_rest(),
        ensures
            final(self)@ == old(self)@.disposed(),
            final(self)@.inv(),
            final(self)@.phase is Disposed,
            ran@ == old(self)@.drained(),
            exists|evs: Seq<Event<J>>|
                old(self)@.close().leads(evs, final(self)@, jobs_in(ran@)),
    {
        let ghost pre = self@;
        let ghost jobs = jobs_of(pre.queue);
        let mut ran: Vec<Dispatch<J>> = Vec::new();
        let n = self.workers.len();
        self.shutdown();
        let ghost start = self@;
        let ghost mut trace: Seq<Event<J>> = Seq::empty();
        proof {
            lemma_queue_shape(pre.queue);
            assert(pre.queue =~= wrap(jobs));
            assert(self@.workers =~= pre.workers);
            assert(jobs_in(ran@) =~= Seq::<J>::empty());
        }
        let mut w: usize = 0;
        while w < n
            invariant
                w <= n,
                n == pre.workers.len(),
                pre.inv(),
                pre.phase is Live,
                pre.at_rest(),
                jobs == jobs_of(pre.queue),
                pre.queue == wrap(jobs),
                start == pre.close(),
                self@.inv(),
                self@.workers.len() == n,
                self@.phase == (if w == n {
                    Phase::Disposed
                } else {
                    Phase::Closing
                }),
                self@.queue == wrap(pre.intake(w as int)) + stops((n - w) as nat),
                forall|i: int| 0 <= i < w ==> #[trigger] self@.workers[i] == pre.disposed().workers[i],
                forall|i: int| w <= i < n ==> #[trigger] self@.workers[i] == pre.workers[i],
                ran@ == pre.drained_by(w as int),
                start.leads(trace, self@, jobs_in(ran@)),
            decreases n - w,
        {
            let ghost extra = pre.intake(w as int);
            let ghost mut k: int = 0;
            let mut running = true;
            proof {
                assert(extra.skip(0) =~= extra);
                assert(pre.workers[w as int].fed(extra.take(0)).queue =~= pre.workers[w as int].queue);
            }
            while running
                invariant
                    w < n,
                    n == pre.workers.len(),
                    pre.inv(),
                    pre.phase is Live,
                    extra == pre.intake(w as int),
                    self@.inv(),
                    self@.workers.len() == n,
                    self@.phase is Closing,
                    forall|i: int|
                        0 <= i < w ==> #[trigger] self@.workers[i] == pre.disposed().workers[i],
                    forall|i: int| w < i < n ==> #[trigger] self@.workers[i] == pre.workers[i],
                    0 <= k <= extra.len(),
                    running ==> self@.queue == wrap(extra.skip(k)) + stops((n - w) as nat)
                        && self@.workers[w as int] == pre.workers[w as int].fed(extra.take(k)),
                    !running ==> self@.queue == stops::<J>((n - w - 1) as nat)
                        && self@.workers[w as int] == pre.stopped_worker(w as int),
                    start.leads(trace, self@, jobs_in(ran@)),
                decreases
                        self@.queue.len() + (if running {
                            1nat
                        } else {
                            0nat
                        }),
            {
                let ghost mid = self@;
                proof {
                    start.lemma_leads_push(trace, Event::WorkerRecv(w as int));
                    trace = trace.push(Event::WorkerRecv(w as int));
                    assert(jobs_in(ran@) + Seq::<J>::empty() =~= jobs_in(ran@));
                }
                match self.worker_recv(w) {
                    WorkerStep::Forwarded => {
                        proof {
                            assert(extra.skip(k)[0] == extra[k]);
                            assert(self@.queue =~= wrap(extra.skip(k + 1)) + stops((n - w) as nat));
                            assert(self@.workers[w as int].queue =~= pre.workers[w as int].fed(
                                extra.take(k + 1),
                            ).queue);
                            k = k + 1;
                        }
                    },
                    _ => {
                        proof {
                            assert(mid.queue[0] is Terminate);
                            assert(extra.take(k) =~= extra);
                            assert(self@.queue =~= stops::<J>((n - w - 1) as nat));
                        }
                        running = false;
                    },
                }
            }
            let ghost mid = self@;
            let ghost before = ran@;
            assert(mid.workers[w as int].inv());
            self.workers[w].settle(&mut ran);
            proof {
                let stopped = pre.stopped_worker(w as int);
                let settled = stopped.settled();
                mid.lemma_with_worker_inv(w as int, settled);
                assert(self@.workers =~= mid.with_worker(w as int, settled).workers);
                assert(self@ == mid.with_worker(w as int, settled));
                let evs = choose|evs: Seq<Event<J>>|
                    stopped.leads(evs, settled, jobs_in(stopped.runs()));
                mid.lemma_worker_run(w as int, evs);
                start.lemma_leads_add(trace, evs);
                trace = trace + evs;
                assert(jobs_in(ran@) =~= jobs_in(before) + jobs_in(stopped.runs()));
                start.lemma_leads_push(trace, Event::JoinWorker(w as int));
                trace = trace.push(Event::JoinWorker(w as int));
                assert(jobs_in(ran@) + Seq::<J>::empty() =~= jobs_in(ran@));
            }
            let joined = self.join_worker(w);
            assert(joined);
            w += 1;
            proof {
                assert(wrap(pre.intake(w as int)) + stops::<J>((n - w) as nat) =~= stops::<J>(
                    (n - w) as nat,
                ));
            }
        }
        proof {
            assert(self@.queue =~= Seq::<Message<J>>::empty());
            assert(self@.workers =~= pre.disposed().workers);
        }
        ran
    }

    /// Disposes of the pool in one call where that is possible: where the
    /// pool is live and no executor is in the middle of a job. Otherwise it
    /// returns `None` and leaves the pool as it is.
    pub fn try_dispose(&mut self) -> (r: Option<Vec<Dispatch<J>>>)
        requires
            old(self)@.inv(),
        ensures
            final(self)@.inv(),
            old(self)@.phase is Live && old(self)@.at_rest() ==> {
                &&& final(self)@ == old(self)@.disposed()
                &&& r matches Some(ran)
                &&& ran@ == old(self)@.drained()
                &&& exists|evs: Seq<Event<J>>|
                    old(self)@.close().leads(evs, final(self)@, jobs_in(ran@))
            },
            !(old(self)@.phase is Live && old(self)@.at_rest()) ==> {
                &&& final(self)@ == old(self)@
                &&& r is None
            },
    {
        if self.phase == Phase::Live && self.is_at_rest() {
            Some(self.dispose())
        } else {
            None
        }
    }

    /// Whether no executor of the pool is running a job.
    pub fn is_at_rest(&self) -> (b: bool)
        ensures
            b == self@.at_rest(),
    {
        let mut w: usize = 0;
        while w < self.workers.len()
            invariant
                w <= self.workers@.len(),
                forall|i: int| 0 <= i < w ==> (#[trigger] self@.workers[i]).at_rest(),
            decreases self.workers@.len() - w,
        {
            if !self.workers[w].is_at_rest() {
                assert(!self@.workers[w as int].at_rest());
                return false;
            }
            w += 1;
        }
        true
    }

    /// The number of workers.
    pub fn size(&self) -> (n: usize)
        ensures
            n == self@.workers.len(),
    {
        self.workers.len()
    }

    /// Where the pool stands.
    pub fn phase(&self) -> (phase: Phase)
        ensures
            phase == self@.phase,
    {
        self.phase
    }

    /// Whether every thread has ended and has been joined.
    pub fn is_disposed(&self) -> (b: bool)
        ensures
            b == self@.phase is Disposed,
    {
        self.phase == Phase::Disposed
    }

    /// The number of messages waiting in the shared channel.
    pub fn queued(&self) -> (n: usize)
        ensures
            n == self@.queue.len(),
    {
        self.sender.len()
    }

    /// Worker `w` as it stands, or `None` where the pool has no such worker.
    pub fn worker(&self, w: usize) -> (r: Option<&Worker<J>>)
        ensures
            w < self@.workers.len() ==> (r matches Some(worker) && worker@
                == self@.workers[w as int]),
            w >= self@.workers.len() ==> r is None,
    {
        if w < self.workers.len() {
            Some(&self.workers[w])
        } else {
            None
        }
    }
}

} // verus!
