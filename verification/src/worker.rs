//! The middle tier: a worker that passes each job it receives on to a private
//! set of executors, and that stops them when it is told to stop.

use crate::channel::{
    jobs_of, lemma_add_stops, lemma_head_stop, lemma_no_stops, lemma_only_stops,
    lemma_ordered_drop_first, lemma_ordered_push, lemma_queue_drop_first, lemma_queue_push,
    lemma_queue_shape, ordered, stops, terminates, wrap, Channel,
};
use crate::count::{
    count_where, lemma_count_all, lemma_count_bound, lemma_count_none, lemma_count_update,
};
use crate::dispose::{assign, jobs_in, Dispatch};
use crate::event::Event;
use crate::executor::{has_exited, Executor, ExecutorStatus};
use crate::message::Message;
use vstd::prelude::*;

verus! {

/// Where a worker stands in its life.
#[derive(Clone, Copy, PartialEq, Eq, Debug, Structural)]
pub enum WorkerStatus {
    /// In its dispatch loop.
    Running,
    /// Out of its loop: it has sent its executors their stop orders and is
    /// joining them one after the other.
    Stopping,
    /// It has joined every executor and returned.
    Exited,
}

/// What one turn of a worker's loop did.
#[derive(Clone, Copy, PartialEq, Eq, Debug, Structural)]
pub enum WorkerStep {
    /// A job went from the shared channel to the worker's private channel.
    Forwarded,
    /// The worker received its stop order and left its loop.
    Stopped,
    /// Nothing is waiting: the worker blocks.
    Empty,
    /// There is no such worker in its loop.
    Refused,
}

/// What one turn of an executor's loop did.
#[derive(PartialEq, Eq, Debug)]
pub enum ExecutorStep<J> {
    /// The executor received this job and now has to run it.
    Run(J),
    /// The executor received its stop order and left its loop.
    Exit,
    /// Nothing is waiting: the executor blocks.
    Empty,
    /// There is no such executor waiting for a message.
    Refused,
}

/// A worker as the protocol sees it.
pub struct WorkerView<J> {
    /// Its index among the pool's workers.
    pub id: usize,
    pub status: WorkerStatus,
    /// Whether the worker's thread handle has been consumed by a join.
    pub joined: bool,
    /// The private channel that feeds the worker's executors.
    pub queue: Seq<Message<J>>,
    pub executors: Seq<Executor>,
}

impl<J> WorkerView<J> {
    /// A worker that has just been created with `fanout` executors.
    pub open spec fn fresh(id: usize, fanout: nat) -> WorkerView<J> {
        WorkerView {
            id,
            status: WorkerStatus::Running,
            joined: false,
            queue: Seq::empty(),
            executors: Seq::new(
                fanout,
                |e: int| Executor { id: e as usize, status: ExecutorStatus::Idle, joined: false },
            ),
        }
    }

    /// What always holds of a worker.
    pub open spec fn inv(self) -> bool {
        let n = self.executors.len();
        // Each executor is sound and knows its place.
        &&& forall|e: int|
            0 <= e < n ==> (#[trigger] self.executors[e]).id == e && self.executors[e].inv()
        // Executors are joined in their order.
        &&& forall|a: int, b: int|
            0 <= a <= b < n && (#[trigger] self.executors[b]).joined ==> (
            #[trigger] self.executors[a]).joined
        // In the private channel every stop order stands behind every job.
        &&& ordered(self.queue)
        // The worker is joined only after it has returned, and once out of
        // its loop it returns exactly when its last executor is joined.
        &&& self.joined ==> self.status is Exited
        &&& self.status is Exited <==> !(self.status is Running) && (n == 0
            || self.executors[n - 1].joined)
        // While the worker is in its loop no stop order is out, and no
        // executor has met one or been joined.
        &&& self.status is Running ==> terminates(self.queue) == 0 && forall|e: int|
            0 <= e < n ==> !(#[trigger] self.executors[e]).joined && !(
            self.executors[e].status is Exited)
        // From then on each executor has met its stop order or still has one
        // waiting for it.
        &&& !(self.status is Running) ==> terminates(self.queue) + count_where(
            self.executors,
            has_exited(),
        ) == n
        // An executor leaves its loop only when no job is left in the
        // private channel.
        &&& forall|e: int|
            0 <= e < n && (#[trigger] self.executors[e]).status is Exited ==> jobs_of(
                self.queue,
            ).len() == 0
    }

    /// The worker after it has handled `m` in its dispatch loop: a job goes on
    /// to the private channel; a stop order ends the loop and puts one stop
    /// order for each executor behind everything forwarded so far. A worker
    /// without executors has nobody to join and returns at once.
    pub open spec fn on_message(self, m: Message<J>) -> WorkerView<J> {
        match m {
            Message::NewJob(_) => WorkerView { queue: self.queue.push(m), ..self },
            Message::Terminate => WorkerView {
                status: if self.executors.len() == 0 {
                    WorkerStatus::Exited
                } else {
                    WorkerStatus::Stopping
                },
                queue: self.queue + stops(self.executors.len()),
                ..self
            },
        }
    }

    /// Whether executor `e` can receive now.
    pub open spec fn can_take(self, e: int) -> bool {
        &&& 0 <= e < self.executors.len()
        &&& self.executors[e].status is Idle
        &&& self.queue.len() > 0
    }

    /// The worker after executor `e` has received the oldest message of the
    /// private channel, if it could.
    pub open spec fn take(self, e: int) -> WorkerView<J> {
        if self.can_take(e) {
            WorkerView {
                queue: self.queue.drop_first(),
                executors: self.executors.update(e, self.executors[e].received(self.queue[0])),
                ..self
            }
        } else {
            self
        }
    }

    /// What executor `e` gets when it tries to receive.
    pub open spec fn take_step(self, e: int) -> ExecutorStep<J> {
        if !(0 <= e < self.executors.len() && self.executors[e].status is Idle) {
            ExecutorStep::Refused
        } else if self.queue.len() == 0 {
            ExecutorStep::Empty
        } else {
            match self.queue[0] {
                Message::NewJob(j) => ExecutorStep::Run(j),
                Message::Terminate => ExecutorStep::Exit,
            }
        }
    }

    /// Whether executor `e` is running a job.
    pub open spec fn is_busy(self, e: int) -> bool {
        0 <= e < self.executors.len() && self.executors[e].status is Busy
    }

    /// The worker after the job of executor `e` has ended and left the
    /// executor with `status`, if it was running one.
    pub open spec fn release(self, e: int, status: ExecutorStatus) -> WorkerView<J> {
        if self.is_busy(e) {
            WorkerView {
                executors: self.executors.update(e, self.executors[e].with_status(status)),
                ..self
            }
        } else {
            self
        }
    }

    /// Whether the worker can join executor `e` now: the worker is out of its
    /// loop, the executor has ended, and it is the next in line.
    pub open spec fn can_join(self, e: int) -> bool {
        &&& self.status is Stopping
        &&& 0 <= e < self.executors.len()
        &&& self.executors[e].gone()
        &&& !self.executors[e].joined
        &&& e > 0 ==> self.executors[e - 1].joined
    }

    /// The worker after it has joined executor `e`, if it could. With the
    /// last executor joined the worker returns.
    pub open spec fn join(self, e: int) -> WorkerView<J> {
        if self.can_join(e) {
            WorkerView {
                status: if e == self.executors.len() - 1 {
                    WorkerStatus::Exited
                } else {
                    WorkerStatus::Stopping
                },
                executors: self.executors.update(e, self.executors[e].after_join()),
                ..self
            }
        } else {
            self
        }
    }

    /// Whether the worker still has an executor that no faulting job has
    /// taken from it.
    pub open spec fn has_capacity(self) -> bool {
        exists|e: int|
            0 <= e < self.executors.len() && !((#[trigger] self.executors[e]).status is Faulted)
    }

    /// The worker after the pool has consumed its thread handle.
    pub open spec fn after_join(self) -> WorkerView<J> {
        WorkerView { joined: true, ..self }
    }

    /// Whether the worker's thread can be joined now: it has returned and
    /// its handle is still there.
    pub open spec fn can_reap(self) -> bool {
        self.status is Exited && !self.joined
    }

    /// The worker after the pool has joined it, if it could.
    pub open spec fn reap(self) -> WorkerView<J> {
        if self.can_reap() {
            self.after_join()
        } else {
            self
        }
    }

    /// A fresh worker satisfies the invariant.
    pub proof fn lemma_fresh_inv(id: usize, fanout: nat)
        requires
            fanout <= usize::MAX,
        ensures
            Self::fresh(id, fanout).inv(),
    {
        let w = Self::fresh(id, fanout);
        lemma_no_stops(w.queue);
    }

    /// Handling a message in the dispatch loop keeps the invariant.
    pub proof fn lemma_on_message_inv(self, m: Message<J>)
        requires
            self.inv(),
            self.status is Running,
        ensures
            self.on_message(m).inv(),
    {
        let next = self.on_message(m);
        match m {
            Message::NewJob(_) => {
                lemma_queue_push(self.queue, m);
                lemma_ordered_push(self.queue, m);
            },
            Message::Terminate => {
                lemma_add_stops(self.queue, self.executors.len());
                lemma_count_none(self.executors, has_exited());
            },
        }
    }

    /// A receive by an executor keeps the invariant.
    pub proof fn lemma_take_inv(self, e: int)
        requires
            self.inv(),
        ensures
            self.take(e).inv(),
    {
        if self.can_take(e) {
            let next = self.take(e);
            let old_x = self.executors[e];
            let new_x = old_x.received(self.queue[0]);
            lemma_queue_drop_first(self.queue);
            lemma_ordered_drop_first(self.queue);
            lemma_no_stops(self.queue);
            lemma_count_update(self.executors, has_exited(), e, new_x);
            match self.queue[0] {
                Message::NewJob(j) => {
                    assert(jobs_of(self.queue).len() > 0);
                },
                Message::Terminate => {
                    lemma_head_stop(self.queue);
                    assert(!(self.status is Running));
                },
            }
            let last = self.executors.len() - 1;
            assert(next.executors[last].joined == self.executors[last].joined);
        }
    }

    /// The end of a job, in either way, keeps the invariant.
    pub proof fn lemma_release_inv(self, e: int, status: ExecutorStatus)
        requires
            self.inv(),
            status is Idle || status is Faulted,
        ensures
            self.release(e, status).inv(),
    {
        if self.is_busy(e) {
            let next = self.release(e, status);
            lemma_count_update(self.executors, has_exited(), e, self.executors[e].with_status(status));
            let last = self.executors.len() - 1;
            assert(next.executors[last].joined == self.executors[last].joined);
        }
    }

    /// A join of an executor keeps the invariant.
    pub proof fn lemma_join_inv(self, e: int)
        requires
            self.inv(),
        ensures
            self.join(e).inv(),
    {
        if self.can_join(e) {
            let next = self.join(e);
            lemma_count_update(self.executors, has_exited(), e, self.executors[e].after_join());
            assert forall|a: int, b: int|
                0 <= a <= b < next.executors.len() && (#[trigger] next.executors[b]).joined implies (
            #[trigger] next.executors[a]).joined by {
                if b == e {
                    if a < e {
                        assert(self.executors[e - 1].joined);
                    }
                } else {
                    assert(self.executors[b].joined);
                    if a == e {
                    } else {
                        assert(self.executors[a].joined);
                    }
                }
            }
        }
    }
}

/// A worker: its place in the pool, its private channel and the executors
/// that draw from it.
pub struct Worker<J> {
    id: usize,
    status: WorkerStatus,
    joined: bool,
    queue: Channel<J>,
    executors: Vec<Executor>,
}

impl<J> View for Worker<J> {
    type V = WorkerView<J>;

    closed spec fn view(&self) -> WorkerView<J> {
        WorkerView {
            id: self.id,
            status: self.status,
            joined: self.joined,
            queue: self.queue@,
            executors: self.executors@,
        }
    }
}

impl<J> Worker<J> {
    /// Creates worker `id` with an empty private channel and `fanout`
    /// executors that wait on it.
    pub fn new(fanout: usize, id: usize) -> (w: Worker<J>)
        ensures
            w@ == WorkerView::<J>::fresh(id, fanout as nat),
            w@.inv(),
    {
        let mut executors: Vec<Executor> = Vec::with_capacity(fanout);
        let mut i: usize = 0;
        while i < fanout
            invariant
                i <= fanout,
                executors@.len() == i,
                forall|e: int|
                    0 <= e < i ==> #[trigger] executors@[e] == (Executor {
                        id: e as usize,
                        status: ExecutorStatus::Idle,
                        joined: false,
                    }),
            decreases fanout - i,
        {
            executors.push(Executor::new(i));
            i += 1;
        }
        let w = Worker {
            id,
            status: WorkerStatus::Running,
            joined: false,
            queue: Channel::new(),
            executors,
        };
        proof {
            assert(w@.executors =~= WorkerView::<J>::fresh(id, fanout as nat).executors);
            WorkerView::<J>::lemma_fresh_inv(id, fanout as nat);
        }
        w
    }

    /// One turn of the dispatch loop: handles the message that the worker has
    /// just received from the shared channel.
    pub fn on_message(&mut self, m: Message<J>) -> (step: WorkerStep)
        requires
            old(self)@.inv(),
            old(self)@.status is Running,
        ensures
            final(self)@ == old(self)@.on_message(m),
            final(self)@.inv(),
            step == match m {
                Message::NewJob(_) => WorkerStep::Forwarded,
                Message::Terminate => WorkerStep::Stopped,
            },
    {
        proof {
            old(self)@.lemma_on_message_inv(m);
        }
        match m {
            Message::NewJob(job) => {
                self.queue.send(Message::NewJob(job));
                WorkerStep::Forwarded
            },
            Message::Terminate => {
                self.status = if self.executors.len() == 0 {
                    WorkerStatus::Exited
                } else {
                    WorkerStatus::Stopping
                };
                self.queue.send_stops(self.executors.len());
                WorkerStep::Stopped
            },
        }
    }

    /// One turn of the loop of executor `e`: it receives the oldest message
    /// of the private channel, if it is waiting and there is one.
    pub fn take(&mut self, e: usize) -> (step: ExecutorStep<J>)
        requires
            old(self)@.inv(),
        ensures
            final(self)@ == old(self)@.take(e as int),
            final(self)@.inv(),
            step == old(self)@.take_step(e as int),
    {
        proof {
            old(self)@.lemma_take_inv(e as int);
        }
        if e >= self.executors.len() {
            return ExecutorStep::Refused;
        }
        if self.executors[e].status != ExecutorStatus::Idle {
            return ExecutorStep::Refused;
        }
        match self.queue.recv() {
            None => ExecutorStep::Empty,
            Some(m) => {
                match self.executors[e].on_message(m) {
                    Some(job) => ExecutorStep::Run(job),
                    None => ExecutorStep::Exit,
                }
            },
        }
    }

    /// The job of executor `e` has returned: the executor waits again.
    /// Returns whether it was running one.
    pub fn finish(&mut self, e: usize) -> (done: bool)
        requires
            old(self)@.inv(),
        ensures
            final(self)@ == old(self)@.release(e as int, ExecutorStatus::Idle),
            final(self)@.inv(),
            done == old(self)@.is_busy(e as int),
    {
        proof {
            old(self)@.lemma_release_inv(e as int, ExecutorStatus::Idle);
        }
        if e < self.executors.len() && self.executors[e].status == ExecutorStatus::Busy {
            self.executors[e].finish();
            true
        } else {
            false
        }
    }

    /// The job of executor `e` has raised a fault: the executor is lost.
    /// Returns whether it was running one.
    pub fn fault(&mut self, e: usize) -> (done: bool)
        requires
            old(self)@.inv(),
        ensures
            final(self)@ == old(self)@.release(e as int, ExecutorStatus::Faulted),
            final(self)@.inv(),
            done == old(self)@.is_busy(e as int),
    {
        proof {
            old(self)@.lemma_release_inv(e as int, ExecutorStatus::Faulted);
        }
        if e < self.executors.len() && self.executors[e].status == ExecutorStatus::Busy {
            self.executors[e].fault();
            true
        } else {
            false
        }
    }

    /// Whether the worker can join executor `e` now.
    pub fn can_join(&self, e: usize) -> (b: bool)
        ensures
            b == self@.can_join(e as int),
    {
        self.status == WorkerStatus::Stopping && e < self.executors.len() && (
        self.executors[e].status == ExecutorStatus::Exited || self.executors[e].status
            == ExecutorStatus::Faulted) && !self.executors[e].joined && (e == 0
            || self.executors[e - 1].joined)
    }

    /// The worker joins executor `e` and consumes its thread handle, if the
    /// executor has ended and is the next in line. Returns whether it did.
    pub fn join(&mut self, e: usize) -> (done: bool)
        requires
            old(self)@.inv(),
        ensures
            final(self)@ == old(self)@.join(e as int),
            final(self)@.inv(),
            done == old(self)@.can_join(e as int),
    {
        proof {
            old(self)@.lemma_join_inv(e as int);
        }
        if self.can_join(e) {
            self.executors[e].join();
            if e == self.executors.len() - 1 {
                self.status = WorkerStatus::Exited;
            }
            true
        } else {
            false
        }
    }

    /// Gives each executor of a worker that has just left its loop its turn,
    /// in their order: an executor that waits receives until it meets its
    /// stop order, and every executor is joined. The jobs received are
    /// appended to `ran`, each with the executor that received it, and count
    /// as run on the spot. All of it is a run of events among the worker's
    /// executors.
    pub fn settle(&mut self, ran: &mut Vec<Dispatch<J>>)
        requires
            old(self)@.inv(),
            old(self)@.just_stopped(),
            old(self)@.at_rest(),
        ensures
            final(self)@ == old(self)@.settled(),
            final(self)@.inv(),
            final(ran)@ == old(ran)@ + old(self)@.runs(),
            exists|evs: Seq<Event<J>>|
                old(self)@.leads(evs, final(self)@, jobs_in(old(self)@.runs())),
    {
        let ghost pre = self@;
        let ghost ran0 = ran@;
        let ghost jobs = jobs_of(pre.queue);
        let ghost id = pre.id as int;
        let n = self.executors.len();
        proof {
            lemma_queue_shape(pre.queue);
            lemma_count_none(pre.executors, has_exited());
            assert(ran@ =~= ran0 + Seq::<Dispatch<J>>::empty());
        }
        let ghost mut t: int = -1;
        let ghost mut trace: Seq<Event<J>> = Seq::empty();
        let mut e: usize = 0;
        while e < n
            invariant
                e <= n,
                n == pre.executors.len(),
                id == pre.id,
                pre.inv(),
                pre.just_stopped(),
                pre.at_rest(),
                jobs == jobs_of(pre.queue),
                pre.queue == wrap(jobs) + stops(n as nat),
                self@.inv(),
                self@.id == pre.id,
                self@.joined == pre.joined,
                self@.executors.len() == n,
                self@.status == (if e == n {
                    WorkerStatus::Exited
                } else {
                    WorkerStatus::Stopping
                }),
                forall|i: int|
                    0 <= i < e ==> #[trigger] self@.executors[i] == pre.settled_executors()[i],
                forall|i: int| e <= i < n ==> #[trigger] self@.executors[i] == pre.executors[i],
                t >= 0 ==> t < e && pre.is_taker(t) && ran@ == ran0 + pre.runs(),
                t < 0 ==> (forall|i: int|
                    0 <= i < e ==> !((#[trigger] pre.executors[i]).status is Idle)) && self@.queue
                    == pre.queue && ran@ == ran0,
                pre.leads(
                    trace,
                    self@,
                    if t >= 0 {
                        jobs
                    } else {
                        Seq::empty()
                    },
                ),
            decreases n - e,
        {
            if self.executors[e].status == ExecutorStatus::Idle {
                let ghost mut k: int = 0;
                let mut waiting = true;
                proof {
                    assert(jobs.skip(0) =~= jobs);
                    assert(jobs.take(0) =~= Seq::<J>::empty());
                    assert(ran@ =~= ran@ + assign(jobs.take(0), pre.id, e));
                }
                while waiting
                    invariant
                        e < n,
                        n == pre.executors.len(),
                        id == pre.id,
                        pre.inv(),
                        pre.just_stopped(),
                        jobs == jobs_of(pre.queue),
                        self@.inv(),
                        self@.id == pre.id,
                        self@.joined == pre.joined,
                        self@.executors.len() == n,
                        self@.status is Stopping,
                        pre.executors[e as int].status is Idle,
                        forall|i: int|
                            0 <= i < e ==> #[trigger] self@.executors[i]
                                == pre.settled_executors()[i],
                        forall|i: int|
                            e < i < n ==> #[trigger] self@.executors[i] == pre.executors[i],
                        waiting ==> self@.executors[e as int] == pre.executors[e as int],
                        !waiting ==> self@.executors[e as int] == pre.executors[e as int].with_status(
                            ExecutorStatus::Exited,
                        ),
                        t >= 0 ==> t < e && pre.is_taker(t) && ran@ == ran0 + pre.runs(),
                        t < 0 ==> {
                            &&& forall|i: int|
                                0 <= i < e ==> !((#[trigger] pre.executors[i]).status is Idle)
                            &&& 0 <= k <= jobs.len()
                            &&& ran@ == ran0 + assign(jobs.take(k), pre.id, e)
                            &&& waiting ==> self@.queue == wrap(jobs.skip(k)) + stops(n as nat)
                            &&& !waiting ==> k == jobs.len()
                        },
                        pre.leads(
                            trace,
                            self@,
                            if t >= 0 {
                                jobs
                            } else {
                                jobs.take(k)
                            },
                        ),
                    decreases
                            self@.queue.len() + (if waiting {
                                1nat
                            } else {
                                0nat
                            }),
                {
                    let ghost mid = self@;
                    proof {
                        lemma_no_stops(mid.queue);
                        if t >= 0 {
                            assert(mid.executors[t].status is Exited);
                            lemma_only_stops(mid.queue);
                            lemma_count_all(mid.executors, has_exited());
                            lemma_count_bound(mid.executors, has_exited());
                            assert(!has_exited()(mid.executors[e as int]));
                        }
                        pre.lemma_leads_push(trace, Event::ExecutorRecv(id, e as int));
                        trace = trace.push(Event::ExecutorRecv(id, e as int));
                    }
                    match self.take(e) {
                        ExecutorStep::Run(job) => {
                            ran.push(Dispatch { worker: self.id, executor: e, job });
                            proof {
                                pre.lemma_leads_push(trace, Event::ExecutorDone(id, e as int));
                                trace = trace.push(Event::ExecutorDone(id, e as int));
                            }
                            self.finish(e);
                            proof {
                                assert(jobs.skip(k)[0] == jobs[k]);
                                assert(self@.queue =~= wrap(jobs.skip(k + 1)) + stops(n as nat));
                                assert(ran@ =~= ran0 + assign(jobs.take(k + 1), pre.id, e));
                                assert(jobs.take(k) + seq![jobs[k]] + Seq::<J>::empty()
                                    =~= jobs.take(k + 1));
                                k = k + 1;
                            }
                        },
                        _ => {
                            proof {
                                if t >= 0 {
                                    assert(jobs + Seq::<J>::empty() =~= jobs);
                                } else {
                                    assert(jobs.take(k) + Seq::<J>::empty() =~= jobs.take(k));
                                }
                            }
                            waiting = false;
                        },
                    }
                }
                proof {
                    if t < 0 {
                        pre.lemma_taker_unique(e as int);
                        assert(jobs.take(jobs.len() as int) =~= jobs);
                        t = e as int;
                    }
                }
            }
            proof {
                pre.lemma_leads_push(trace, Event::JoinExecutor(id, e as int));
                trace = trace.push(Event::JoinExecutor(id, e as int));
                if t >= 0 {
                    assert(jobs + Seq::<J>::empty() =~= jobs);
                } else {
                    assert(Seq::<J>::empty() + Seq::<J>::empty() =~= Seq::<J>::empty());
                }
            }
            let joined = self.join(e);
            assert(joined);
            e += 1;
        }
        proof {
            assert(self@.executors =~= pre.settled_executors());
            if t >= 0 {
                pre.lemma_taker_unique(t);
                assert(self@.executors[t].status is Exited);
                lemma_only_stops(self@.queue);
                assert(jobs_in(pre.runs()) =~= jobs);
            } else {
                assert(!pre.has_idle()) by {
                    if pre.has_idle() {
                        assert(pre.is_taker(pre.taker()));
                    }
                }
                assert(ran@ =~= ran0 + pre.runs());
                assert(jobs_in(pre.runs()) =~= Seq::<J>::empty());
            }
            assert(pre.leads(trace, self@, jobs_in(pre.runs())));
        }
    }

    /// Whether no executor of the worker is running a job.
    pub fn is_at_rest(&self) -> (b: bool)
        ensures
            b == self@.at_rest(),
    {
        let mut e: usize = 0;
        while e < self.executors.len()
            invariant
                e <= self.executors@.len(),
                forall|i: int| 0 <= i < e ==> !((#[trigger] self@.executors[i]).status is Busy),
            decreases self.executors@.len() - e,
        {
            if self.executors[e].status == ExecutorStatus::Busy {
                return false;
            }
            e += 1;
        }
        true
    }

    /// The pool joins the worker and consumes its thread handle, if the
    /// worker has returned and has not been joined before. Returns whether
    /// it did.
    pub fn reap(&mut self) -> (done: bool)
        requires
            old(self)@.inv(),
        ensures
            final(self)@ == old(self)@.reap(),
            final(self)@.inv(),
            done == old(self)@.can_reap(),
    {
        if self.status == WorkerStatus::Exited && !self.joined {
            self.joined = true;
            true
        } else {
            false
        }
    }

    /// The worker's index in the pool.
    pub fn id(&self) -> (id: usize)
        ensures
            id == self@.id,
    {
        self.id
    }

    /// Where the worker stands.
    pub fn status(&self) -> (status: WorkerStatus)
        ensures
            status == self@.status,
    {
        self.status
    }

    /// Whether the worker's thread handle has been consumed.
    pub fn is_joined(&self) -> (joined: bool)
        ensures
            joined == self@.joined,
    {
        self.joined
    }

    /// The number of executors that the worker owns.
    pub fn fanout(&self) -> (n: usize)
        ensures
            n == self@.executors.len(),
    {
        self.executors.len()
    }

    /// The number of messages waiting in the private channel.
    pub fn queued(&self) -> (n: usize)
        ensures
            n == self@.queue.len(),
    {
        self.queue.len()
    }

    /// Executor `e` as it stands, or `None` where the worker has no such
    /// executor.
    pub fn executor(&self, e: usize) -> (x: Option<Executor>)
        ensures
            x == if e < self@.executors.len() {
                Some(self@.executors[e as int])
            } else {
                None
            },
    {
        if e < self.executors.len() {
            Some(self.executors[e])
        } else {
            None
        }
    }
}

} // verus!
