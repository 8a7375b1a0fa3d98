//! What holds of every pool, whatever the order in which its threads run.

use crate::channel::{
    job_bag, jobs_of, lemma_add_jobs, lemma_add_stops, lemma_empty_bag, lemma_head_stop,
    lemma_job_bag, lemma_no_stops, stops, terminates, wrap,
};
use crate::count::{count_where, lemma_count_all, lemma_count_bound, lemma_count_none};
use crate::dispose::jobs_in;
use crate::event::{held, Event};
use crate::executor::{has_exited, ExecutorStatus};
use crate::message::Message;
use crate::pool::{is_running, PoolView};
use crate::worker::WorkerView;
use vstd::multiset::{group_multiset_axioms, Multiset};
use vstd::prelude::*;
use vstd::seq_lib::{lemma_multiset_commutative, to_multiset_build};

verus! {

/// Replacing one worker trades the jobs of its private channel for those of
/// the new one's.
proof fn lemma_held_update<J>(workers: Seq<WorkerView<J>>, w: int, worker: WorkerView<J>)
    requires
        0 <= w < workers.len(),
    ensures
        held(workers.update(w, worker)).add(job_bag(workers[w].queue)) == held(workers).add(
            job_bag(worker.queue),
        ),
    decreases workers.len(),
{
    broadcast use group_multiset_axioms;

    let next = workers.update(w, worker);
    let rest = workers.drop_last();
    let lhs = held(next).add(job_bag(workers[w].queue));
    let rhs = held(workers).add(job_bag(worker.queue));
    if w == workers.len() - 1 {
        assert(next.drop_last() =~= rest);
        assert(lhs =~= rhs);
    } else {
        lemma_held_update(rest, w, worker);
        assert(next.drop_last() =~= rest.update(w, worker));
        assert forall|v: J| lhs.count(v) == rhs.count(v) by {
            assert(held(rest.update(w, worker)).add(job_bag(rest[w].queue)).count(v) == held(
                rest,
            ).add(job_bag(worker.queue)).count(v));
        }
        assert(lhs =~= rhs);
    }
}

/// Workers whose private channels hold no job hold no job between them.
proof fn lemma_held_empty<J>(workers: Seq<WorkerView<J>>)
    requires
        forall|w: int| 0 <= w < workers.len() ==> jobs_of((#[trigger] workers[w]).queue).len() == 0,
    ensures
        held(workers) == Multiset::<J>::empty(),
    decreases workers.len(),
{
    broadcast use group_multiset_axioms;

    if workers.len() > 0 {
        let rest = workers.drop_last();
        assert forall|w: int| 0 <= w < rest.len() implies jobs_of((#[trigger] rest[w]).queue).len()
            == 0 by {
            assert(rest[w] == workers[w]);
        }
        lemma_held_empty(rest);
        lemma_job_bag(workers.last().queue);
        assert(held(workers) =~= Multiset::<J>::empty());
    }
}

impl<J> PoolView<J> {
    /// Every event keeps the invariant.
    pub proof fn lemma_step_inv(self, ev: Event<J>)
        requires
            self.inv(),
        ensures
            self.apply(ev).inv(),
    {
        match ev {
            Event::Submit(job) => self.lemma_submit_inv(job),
            Event::Close => self.lemma_close_inv(),
            Event::WorkerRecv(w) => self.lemma_worker_recv_inv(w),
            Event::ExecutorRecv(w, e) => self.lemma_executor_recv_inv(w, e),
            Event::ExecutorDone(w, e) => self.lemma_executor_release_inv(
                w,
                e,
                ExecutorStatus::Idle,
            ),
            Event::ExecutorFault(w, e) => self.lemma_executor_release_inv(
                w,
                e,
                ExecutorStatus::Faulted,
            ),
            Event::JoinExecutor(w, e) => self.lemma_join_executor_inv(w, e),
            Event::JoinWorker(w) => self.lemma_join_worker_inv(w),
        }
    }

    /// Every run of events keeps the invariant: it holds in every state that
    /// a pool can reach.
    pub proof fn lemma_run_inv(self, evs: Seq<Event<J>>)
        requires
            self.inv(),
        ensures
            self.run(evs).inv(),
        decreases evs.len(),
    {
        if evs.len() > 0 {
            self.lemma_run_inv(evs.drop_last());
            self.run(evs.drop_last()).lemma_step_inv(evs.last());
        }
    }

    /// No event loses or doubles a job: the jobs waiting after an event,
    /// together with the job it handed to an executor, are the jobs waiting
    /// before it together with the job it accepted.
    pub proof fn lemma_step_conserves_jobs(self, ev: Event<J>)
        ensures
            self.apply(ev).pending().add(self.dispatched(ev).to_multiset()) == self.pending().add(
                self.accepted(ev).to_multiset(),
            ),
    {
        broadcast use group_multiset_axioms;

        let next = self.apply(ev);
        let lhs = next.pending().add(self.dispatched(ev).to_multiset());
        let rhs = self.pending().add(self.accepted(ev).to_multiset());
        lemma_empty_bag(Seq::<J>::empty());
        lemma_job_bag(self.queue);
        match ev {
            Event::Submit(job) => {
                lemma_one(job);
            },
            Event::Close => {},
            Event::WorkerRecv(w) => {
                if self.can_worker_recv(w) {
                    let worker = self.workers[w].on_message(self.queue[0]);
                    lemma_job_bag(self.workers[w].queue);
                    self.lemma_worker_swap(w, worker);
                }
            },
            Event::ExecutorRecv(w, e) => {
                if self.can_executor_recv(w, e) {
                    let worker = self.workers[w].take(e);
                    lemma_job_bag(self.workers[w].queue);
                    self.lemma_worker_swap(w, worker);
                    if let Message::NewJob(job) = self.workers[w].queue[0] {
                        lemma_one(job);
                    }
                }
            },
            Event::ExecutorDone(w, e) => {
                if self.is_busy(w, e) {
                    self.lemma_worker_swap(w, self.workers[w].release(e, ExecutorStatus::Idle));
                }
            },
            Event::ExecutorFault(w, e) => {
                if self.is_busy(w, e) {
                    self.lemma_worker_swap(w, self.workers[w].release(e, ExecutorStatus::Faulted));
                }
            },
            Event::JoinExecutor(w, e) => {
                if self.can_join_executor(w, e) {
                    self.lemma_worker_swap(w, self.workers[w].join(e));
                }
            },
            Event::JoinWorker(w) => {
                if self.can_join_worker(w) {
                    self.lemma_worker_swap(w, self.workers[w].after_join());
                }
            },
        }
        assert(lhs =~= rhs);
    }

    /// How often a job waits in the private channels after one worker has
    /// been replaced.
    proof fn lemma_worker_swap(self, w: int, worker: WorkerView<J>)
        requires
            0 <= w < self.workers.len(),
        ensures
            forall|v: J| #[trigger]
                held(self.workers.update(w, worker)).count(v) + job_bag(
                    self.workers[w].queue,
                ).count(v) == held(self.workers).count(v) + job_bag(worker.queue).count(v),
    {
        broadcast use group_multiset_axioms;

        lemma_held_update(self.workers, w, worker);
        assert forall|v: J| #[trigger]
            held(self.workers.update(w, worker)).count(v) + job_bag(self.workers[w].queue).count(
                v,
            ) == held(self.workers).count(v) + job_bag(worker.queue).count(v) by {
            assert(held(self.workers.update(w, worker)).add(job_bag(self.workers[w].queue)).count(
                v,
            ) == held(self.workers).add(job_bag(worker.queue)).count(v));
        }
    }

    /// No run of events loses or doubles a job: the jobs still waiting after
    /// the run, together with those handed to executors in its course, are
    /// the jobs waiting before it together with those accepted in its course.
    pub proof fn lemma_run_conserves_jobs(self, evs: Seq<Event<J>>)
        ensures
            self.run(evs).pending().add(self.dispatched_in(evs).to_multiset())
                == self.pending().add(self.accepted_in(evs).to_multiset()),
        decreases evs.len(),
    {
        broadcast use group_multiset_axioms;

        let lhs = self.run(evs).pending().add(self.dispatched_in(evs).to_multiset());
        let rhs = self.pending().add(self.accepted_in(evs).to_multiset());
        if evs.len() == 0 {
            lemma_empty_bag(Seq::<J>::empty());
            assert(lhs =~= rhs);
        } else {
            let before = evs.drop_last();
            let mid = self.run(before);
            self.lemma_run_conserves_jobs(before);
            mid.lemma_step_conserves_jobs(evs.last());
            lemma_multiset_commutative(self.dispatched_in(before), mid.dispatched(evs.last()));
            lemma_multiset_commutative(self.accepted_in(before), mid.accepted(evs.last()));
            assert forall|v: J| lhs.count(v) == rhs.count(v) by {
                assert(mid.pending().add(self.dispatched_in(before).to_multiset()).count(v)
                    == self.pending().add(self.accepted_in(before).to_multiset()).count(v));
                assert(mid.apply(evs.last()).pending().add(
                    mid.dispatched(evs.last()).to_multiset(),
                ).count(v) == mid.pending().add(mid.accepted(evs.last()).to_multiset()).count(v));
            }
            assert(lhs =~= rhs);
        }
    }

    /// A pool that has just been created holds no job.
    pub proof fn lemma_init_holds_nothing(size: nat)
        ensures
            Self::init(size).pending() == Multiset::<J>::empty(),
    {
        broadcast use group_multiset_axioms;

        let s = Self::init(size);
        assert(jobs_of(s.queue) =~= Seq::<J>::empty());
        assert forall|w: int| 0 <= w < s.workers.len() implies jobs_of(
            (#[trigger] s.workers[w]).queue,
        ).len() == 0 by {
            assert(jobs_of(s.workers[w].queue) =~= Seq::<J>::empty());
        }
        lemma_held_empty(s.workers);
        lemma_job_bag(s.queue);
        assert(s.pending() =~= Multiset::<J>::empty());
    }

    /// There is one stop order for each thread that has to stop. Once
    /// disposal has begun, the shared channel holds as many stop orders as
    /// there are workers in their loops; once a worker has left its loop,
    /// each of its executors has met its stop order or has one waiting in
    /// the private channel. And a thread is joined only after its stop order
    /// has been sent.
    pub proof fn lemma_stop_orders_match_receivers(self, w: int, e: int)
        requires
            self.inv(),
            0 <= w < self.workers.len(),
            0 <= e < self.workers[w].executors.len(),
        ensures
            self.phase is Live ==> terminates(self.queue) == 0,
            !(self.phase is Live) ==> terminates(self.queue) == count_where(
                self.workers,
                is_running(),
            ),
            self.workers[w].status is Running ==> terminates(self.workers[w].queue) == 0,
            !(self.workers[w].status is Running) ==> terminates(self.workers[w].queue)
                + count_where(self.workers[w].executors, has_exited())
                == self.workers[w].executors.len(),
            self.workers[w].joined ==> !(self.phase is Live),
            self.can_join_worker(w) ==> !(self.phase is Live),
            self.workers[w].executors[e].joined ==> !(self.workers[w].status is Running),
            self.can_join_executor(w, e) ==> !(self.workers[w].status is Running),
    {
        assert(self.workers[w].inv());
    }

    /// A stop order is the last thing that a thread receives: when a worker
    /// or an executor meets its stop order, no job is left in the channel
    /// that it draws from, so no job is left behind by a thread that ends.
    pub proof fn lemma_stop_order_comes_last(self, w: int, e: int)
        requires
            self.inv(),
        ensures
            self.worker_step(w) is Stopped ==> jobs_of(self.queue).len() == 0,
            self.executor_step(w, e) is Exit ==> jobs_of(self.workers[w].queue).len() == 0,
            0 <= w < self.workers.len() && !(self.workers[w].status is Running) ==> jobs_of(
                self.queue,
            ).len() == 0,
            0 <= w < self.workers.len() && 0 <= e < self.workers[w].executors.len()
                && self.workers[w].executors[e].status is Exited ==> jobs_of(
                self.workers[w].queue,
            ).len() == 0,
    {
        if self.worker_step(w) is Stopped {
            lemma_head_stop(self.queue);
        }
        if self.executor_step(w, e) is Exit {
            lemma_head_stop(self.workers[w].queue);
        }
    }

    /// Disposal is complete only when every thread has ended and has been
    /// joined: every worker has returned, and every executor has left its
    /// loop.
    pub proof fn lemma_disposed_means_ended(self)
        requires
            self.inv(),
            self.phase is Disposed,
        ensures
            forall|w: int|
                0 <= w < self.workers.len() ==> (#[trigger] self.workers[w]).status is Exited
                    && self.workers[w].joined,
            forall|w: int, e: int|
                0 <= w < self.workers.len() && 0 <= e < self.workers[w].executors.len() ==> (
                #[trigger] self.workers[w].executors[e]).gone()
                    && self.workers[w].executors[e].joined,
    {
        let n = self.workers.len() as int;
        assert forall|w: int| 0 <= w < n implies (#[trigger] self.workers[w]).status is Exited
            && self.workers[w].joined by {
            assert(self.workers[n - 1].joined);
        }
        assert forall|w: int, e: int|
            0 <= w < n && 0 <= e < self.workers[w].executors.len() implies (
        #[trigger] self.workers[w].executors[e]).gone() && self.workers[w].executors[e].joined by {
            let worker = self.workers[w];
            assert(worker.status is Exited);
            assert(worker.executors[worker.executors.len() - 1].joined);
            assert(worker.executors[e].inv());
        }
    }

    /// A disposed pool in which every worker kept an executor holds no job:
    /// whatever was submitted before disposal began has been handed to an
    /// executor.
    pub proof fn lemma_disposed_means_drained(self)
        requires
            self.inv(),
            self.phase is Disposed,
            self.keeps_capacity(),
        ensures
            self.pending() == Multiset::<J>::empty(),
    {
        broadcast use group_multiset_axioms;

        self.lemma_disposed_means_ended();
        assert forall|w: int| 0 <= w < self.workers.len() implies jobs_of(
            (#[trigger] self.workers[w]).queue,
        ).len() == 0 by {
            let worker = self.workers[w];
            assert(worker.has_capacity());
            let e = choose|e: int|
                0 <= e < worker.executors.len() && !((#[trigger] worker.executors[e]).status is Faulted);
            assert(self.workers[w].executors[e].gone());
        }
        assert(!(self.workers[0].status is Running));
        lemma_held_empty(self.workers);
        lemma_job_bag(self.queue);
        assert(self.pending() =~= Multiset::<J>::empty());
    }

    /// Every job runs exactly once. Take a fresh pool through any run of
    /// events that ends with the pool disposed and with an executor left to
    /// every worker: the jobs handed to executors in its course are the jobs
    /// that the pool accepted, each as often as it was submitted, however
    /// many there were and in whatever order the threads took their turns.
    pub proof fn lemma_every_job_runs_once(size: nat, evs: Seq<Event<J>>)
        requires
            1 <= size <= usize::MAX,
            Self::init(size).run(evs).phase is Disposed,
            Self::init(size).run(evs).keeps_capacity(),
        ensures
            Self::init(size).dispatched_in(evs).to_multiset() == Self::init(size).accepted_in(
                evs,
            ).to_multiset(),
    {
        broadcast use group_multiset_axioms;

        let s = Self::init(size);
        Self::lemma_init_inv(size);
        Self::lemma_init_holds_nothing(size);
        s.lemma_run_inv(evs);
        s.lemma_run_conserves_jobs(evs);
        s.run(evs).lemma_disposed_means_drained();
        let ran = s.dispatched_in(evs).to_multiset();
        let got = s.accepted_in(evs).to_multiset();
        assert forall|v: J| ran.count(v) == got.count(v) by {
            assert(s.run(evs).pending().add(ran).count(v) == s.pending().add(got).count(v));
        }
        assert(ran =~= got);
    }

    /// A live pool that has come to rest has run every job. Take a fresh
    /// pool through any run of events after which it is still live, no
    /// thread can receive, no job is running, and every worker has an
    /// executor left: the jobs handed to executors in its course are the jobs
    /// that the pool accepted, each as often as it was submitted.
    pub proof fn lemma_pool_at_rest_has_run_every_job(size: nat, evs: Seq<Event<J>>)
        requires
            1 <= size <= usize::MAX,
            Self::init(size).run(evs).phase is Live,
            Self::init(size).run(evs).stalled(),
            Self::init(size).run(evs).at_rest(),
            Self::init(size).run(evs).keeps_capacity(),
        ensures
            Self::init(size).run(evs).pending() == Multiset::<J>::empty(),
            Self::init(size).dispatched_in(evs).to_multiset() == Self::init(size).accepted_in(
                evs,
            ).to_multiset(),
    {
        broadcast use group_multiset_axioms;

        let s = Self::init(size);
        let end = s.run(evs);
        Self::lemma_init_inv(size);
        Self::lemma_init_holds_nothing(size);
        s.lemma_run_inv(evs);
        s.lemma_run_conserves_jobs(evs);
        end.lemma_stalled_means_no_idle_capacity();
        assert(end.workers[0].status is Running);
        assert(jobs_of(end.queue) =~= Seq::<J>::empty());
        assert forall|w: int| 0 <= w < end.workers.len() implies jobs_of(
            (#[trigger] end.workers[w]).queue,
        ).len() == 0 by {
            let worker = end.workers[w];
            assert(worker.inv());
            assert(worker.status is Running);
            assert(worker.has_capacity());
            assert(worker.at_rest());
            let e = choose|e: int|
                0 <= e < worker.executors.len() && !((#[trigger] worker.executors[e]).status is Faulted);
            assert(end.workers[w].executors[e].status is Idle);
            assert(jobs_of(worker.queue) =~= Seq::<J>::empty());
        }
        lemma_held_empty(end.workers);
        lemma_job_bag(end.queue);
        assert(end.pending() =~= Multiset::<J>::empty());
        let ran = s.dispatched_in(evs).to_multiset();
        let got = s.accepted_in(evs).to_multiset();
        assert forall|v: J| ran.count(v) == got.count(v) by {
            assert(end.pending().add(ran).count(v) == s.pending().add(got).count(v));
        }
        assert(ran =~= got);
    }

    /// Idle capacity is never left unused while work is queued. An executor
    /// that waits on a channel in which a message waits can receive at once,
    /// whatever its siblings are doing, and receives the oldest message; the
    /// same holds of a worker and the shared channel.
    pub proof fn lemma_idle_receiver_takes_waiting_work(self, w: int, e: int)
        requires
            0 <= w < self.workers.len(),
        ensures
            self.workers[w].status is Running && self.queue.len() > 0 ==> {
                let next = self.apply(Event::WorkerRecv(w));
                &&& self.enabled(Event::WorkerRecv(w))
                &&& next.queue == self.queue.drop_first()
                &&& next.workers[w] == self.workers[w].on_message(self.queue[0])
            },
            0 <= e < self.workers[w].executors.len() && self.workers[w].executors[e].status is Idle
                && self.workers[w].queue.len() > 0 ==> {
                let next = self.apply(Event::ExecutorRecv(w, e));
                &&& self.enabled(Event::ExecutorRecv(w, e))
                &&& next.workers[w].queue == self.workers[w].queue.drop_first()
                &&& self.workers[w].queue[0] matches Message::NewJob(job) ==> self.dispatched(
                    Event::ExecutorRecv(w, e),
                ) == seq![job] && next.workers[w].executors[e].status is Busy
            },
    {
    }

    /// No executor runs two jobs at once: an executor in the middle of a job
    /// receives nothing, and only the end of that job lets it receive again.
    pub proof fn lemma_one_job_at_a_time(self, w: int, e: int)
        requires
            self.is_busy(w, e),
        ensures
            !self.enabled(Event::ExecutorRecv(w, e)),
            self.executor_step(w, e) is Refused,
            self.apply(Event::ExecutorRecv(w, e)) == self,
            self.dispatched(Event::ExecutorRecv(w, e)) == Seq::<J>::empty(),
    {
    }

    /// A thread handle is consumed by its join: a thread that has been
    /// joined cannot be joined again.
    pub proof fn lemma_join_is_once(self, w: int, e: int)
        ensures
            !self.join_executor(w, e).can_join_executor(w, e),
            !self.join_worker(w).can_join_worker(w),
    {
    }

    /// Where no thread can receive, no message waits in a channel on which
    /// an idle thread is blocked.
    pub proof fn lemma_stalled_means_no_idle_capacity(self)
        requires
            self.stalled(),
        ensures
            forall|w: int|
                0 <= w < self.workers.len() && (#[trigger] self.workers[w]).status is Running
                    ==> self.queue.len() == 0,
            forall|w: int, e: int|
                0 <= w < self.workers.len() && 0 <= e < self.workers[w].executors.len() && (
                #[trigger] self.workers[w].executors[e]).status is Idle
                    ==> self.workers[w].queue.len() == 0,
    {
        assert forall|w: int|
            0 <= w < self.workers.len() && (
            #[trigger] self.workers[w]).status is Running implies self.queue.len() == 0 by {
            assert(!self.can_worker_recv(w));
        }
        assert forall|w: int, e: int|
            0 <= w < self.workers.len() && 0 <= e < self.workers[w].executors.len() && (
            #[trigger] self.workers[w].executors[e]).status is Idle implies self.workers[w].queue.len()
            == 0 by {
            assert(!self.can_executor_recv(w, e));
        }
    }

    /// The first worker, in creation order, that the pool has not joined.
    proof fn lemma_next_worker(self, from: int) -> (w: int)
        requires
            self.inv(),
            !(self.phase is Disposed),
            0 <= from < self.workers.len(),
            from > 0 ==> self.workers[from - 1].joined,
        ensures
            0 <= w < self.workers.len(),
            !self.workers[w].joined,
            w > 0 ==> self.workers[w - 1].joined,
        decreases self.workers.len() - from,
    {
        if !self.workers[from].joined {
            from
        } else {
            self.lemma_next_worker(from + 1)
        }
    }

    /// Disposal cannot hang. As long as it is under way some thread can take
    /// its next step: a worker or an executor can receive, a running job can
    /// end, or a thread that has ended can be joined. The step returned is
    /// that of the first thread not yet joined.
    pub proof fn lemma_shutdown_never_stuck(self) -> (ev: Event<J>)
        requires
            self.inv(),
            self.phase is Closing,
        ensures
            self.enabled(ev),
            !(ev is Submit) && !(ev is Close),
    {
        let w = self.lemma_next_worker(0);
        let worker = self.workers[w];
        assert(worker.inv());
        if worker.status is Running {
            lemma_count_none(self.workers, is_running());
            lemma_no_stops(self.queue);
            assert(is_running::<J>()(self.workers[w]));
            Event::WorkerRecv(w)
        } else if worker.status is Exited {
            Event::JoinWorker(w)
        } else {
            let e = worker.lemma_next_executor(0);
            let x = worker.executors[e];
            if x.status is Busy {
                Event::ExecutorDone(w, e)
            } else if x.status is Idle {
                lemma_count_all(worker.executors, has_exited());
                lemma_count_bound(worker.executors, has_exited());
                lemma_no_stops(worker.queue);
                assert(!has_exited()(worker.executors[e]));
                Event::ExecutorRecv(w, e)
            } else {
                Event::JoinExecutor(w, e)
            }
        }
    }
}

impl<J> PoolView<J> {
    /// The jobs that the executors of the first `k` workers receive in a
    /// disposal by a single caller are the jobs that waited in the private
    /// channels of those workers and in the shared channel.
    proof fn lemma_drained_by(self, k: int)
        requires
            self.inv(),
            self.phase is Live,
            self.at_rest(),
            self.keeps_capacity(),
            0 <= k <= self.workers.len(),
        ensures
            jobs_in(self.drained_by(k)).to_multiset() == held(self.workers.take(k)).add(
                if k > 0 {
                    job_bag(self.queue)
                } else {
                    Multiset::empty()
                },
            ),
        decreases k,
    {
        broadcast use group_multiset_axioms;

        let lhs = jobs_in(self.drained_by(k)).to_multiset();
        let rhs = held(self.workers.take(k)).add(
            if k > 0 {
                job_bag(self.queue)
            } else {
                Multiset::empty()
            },
        );
        if k == 0 {
            assert(jobs_in(self.drained_by(k)) =~= Seq::<J>::empty());
            lemma_empty_bag(Seq::<J>::empty());
            assert(self.workers.take(0) =~= Seq::empty());
            assert(lhs =~= rhs);
        } else {
            let w = k - 1;
            self.lemma_drained_by(w);
            let worker = self.workers[w];
            let stopped = self.stopped_worker(w);
            assert(worker.inv());
            assert(worker.has_capacity());
            let e = choose|e: int|
                0 <= e < worker.executors.len() && !((#[trigger] worker.executors[e]).status is Faulted);
            assert(worker.at_rest());
            assert(worker.status is Running);
            let t = stopped.lemma_find_taker(0, e);
            stopped.lemma_taker_unique(t);
            let fed = worker.queue + wrap(self.intake(w));
            lemma_add_jobs(worker.queue, self.intake(w));
            lemma_add_stops(fed, worker.executors.len());
            let got = jobs_of(worker.queue) + self.intake(w);
            assert(jobs_of(stopped.queue) == got);
            assert(jobs_in(stopped.runs()) =~= got);
            assert(jobs_in(self.drained_by(k)) =~= jobs_in(self.drained_by(w)) + got);
            lemma_multiset_commutative(jobs_in(self.drained_by(w)), got);
            lemma_multiset_commutative(jobs_of(worker.queue), self.intake(w));
            assert(self.workers.take(k).drop_last() =~= self.workers.take(w));
            assert(self.workers.take(k).last() == worker);
            if w > 0 {
                lemma_empty_bag(self.intake(w));
            }
            assert(lhs =~= rhs);
        }
    }

    /// Disposal by a single caller runs every job exactly once. Where every
    /// worker has an executor left, the jobs that it hands back are the jobs
    /// that waited anywhere in the pool, each as often as it waited, and none
    /// waits afterwards.
    pub proof fn lemma_dispose_runs_every_job(self)
        requires
            self.inv(),
            self.phase is Live,
            self.at_rest(),
            self.keeps_capacity(),
        ensures
            jobs_in(self.drained()).to_multiset() == self.pending(),
            self.disposed().pending() == Multiset::<J>::empty(),
    {
        broadcast use group_multiset_axioms;

        let n = self.workers.len() as int;
        self.lemma_drained_by(n);
        assert(self.workers.take(n) =~= self.workers);
        assert(jobs_in(self.drained()).to_multiset() =~= self.pending());
        let end = self.disposed();
        assert forall|w: int| 0 <= w < end.workers.len() implies jobs_of(
            (#[trigger] end.workers[w]).queue,
        ).len() == 0 by {
            let worker = self.workers[w];
            let stopped = self.stopped_worker(w);
            assert(worker.inv());
            assert(worker.has_capacity());
            let e = choose|e: int|
                0 <= e < worker.executors.len() && !((#[trigger] worker.executors[e]).status is Faulted);
            assert(worker.at_rest());
            assert(worker.status is Running);
            let t = stopped.lemma_find_taker(0, e);
            stopped.lemma_taker_unique(t);
            let left = (stopped.executors.len() - count_where(
                stopped.settled_executors(),
                has_exited(),
            )) as nat;
            lemma_add_stops(Seq::<Message<J>>::empty(), left);
            assert(Seq::<Message<J>>::empty() + stops::<J>(left) =~= stops::<J>(left));
        }
        lemma_held_empty(end.workers);
        lemma_job_bag(end.queue);
        assert(jobs_of(end.queue) =~= Seq::<J>::empty());
        assert(end.pending() =~= Multiset::<J>::empty());
    }
}

impl<J> WorkerView<J> {
    /// The first executor that a worker out of its loop has not joined.
    proof fn lemma_next_executor(self, from: int) -> (e: int)
        requires
            self.inv(),
            self.status is Stopping,
            0 <= from < self.executors.len(),
            from > 0 ==> self.executors[from - 1].joined,
        ensures
            0 <= e < self.executors.len(),
            !self.executors[e].joined,
            e > 0 ==> self.executors[e - 1].joined,
        decreases self.executors.len() - from,
    {
        if !self.executors[from].joined {
            from
        } else {
            self.lemma_next_executor(from + 1)
        }
    }
}

/// The bag of a sequence of one item holds that item once.
proof fn lemma_one<J>(job: J)
    ensures
        seq![job].to_multiset() == Multiset::<J>::empty().insert(job),
{
    let none = Seq::<J>::empty();
    to_multiset_build(none, job);
    lemma_empty_bag(none);
    assert(seq![job] =~= none.push(job));
}

} // verus!
