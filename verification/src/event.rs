//! Everything that can happen to a pool, and runs of such events.

use crate::channel::job_bag;
use crate::executor::ExecutorStatus;
use crate::pool::PoolView;
use crate::worker::{ExecutorStep, WorkerView};
use vstd::multiset::Multiset;
use vstd::prelude::*;

verus! {

/// One thing that happens to a pool. Workers and executors are named by their
/// indices.
pub enum Event<J> {
    /// A caller submits a job.
    Submit(J),
    /// Disposal begins.
    Close,
    /// A worker receives from the shared channel.
    WorkerRecv(int),
    /// An executor of a worker receives from the worker's private channel.
    ExecutorRecv(int, int),
    /// The job that an executor was running returns.
    ExecutorDone(int, int),
    /// The job that an executor was running raises a fault.
    ExecutorFault(int, int),
    /// A worker joins one of its executors.
    JoinExecutor(int, int),
    /// The pool joins a worker.
    JoinWorker(int),
}

impl<J> Event<J> {
    /// Whether the event is a step of an executor of worker `w`, or the join
    /// of one.
    pub open spec fn within(self, w: int) -> bool {
        match self {
            Event::ExecutorRecv(v, _) => v == w,
            Event::ExecutorDone(v, _) => v == w,
            Event::ExecutorFault(v, _) => v == w,
            Event::JoinExecutor(v, _) => v == w,
            _ => false,
        }
    }
}

impl<J> WorkerView<J> {
    /// Whether `ev`, taken as an event among the worker's own executors, can
    /// happen now.
    pub open spec fn enabled(self, ev: Event<J>) -> bool {
        match ev {
            Event::ExecutorRecv(_, e) => self.can_take(e),
            Event::ExecutorDone(_, e) => self.is_busy(e),
            Event::ExecutorFault(_, e) => self.is_busy(e),
            Event::JoinExecutor(_, e) => self.can_join(e),
            _ => false,
        }
    }

    /// The worker after `ev`, taken as an event among its own executors.
    pub open spec fn apply(self, ev: Event<J>) -> WorkerView<J> {
        match ev {
            Event::ExecutorRecv(_, e) => self.take(e),
            Event::ExecutorDone(_, e) => self.release(e, ExecutorStatus::Idle),
            Event::ExecutorFault(_, e) => self.release(e, ExecutorStatus::Faulted),
            Event::JoinExecutor(_, e) => self.join(e),
            _ => self,
        }
    }

    /// The jobs that `ev` hands to an executor of the worker.
    pub open spec fn dispatched(self, ev: Event<J>) -> Seq<J> {
        match ev {
            Event::ExecutorRecv(_, e) => match self.take_step(e) {
                ExecutorStep::Run(job) => seq![job],
                _ => Seq::empty(),
            },
            _ => Seq::empty(),
        }
    }

    /// The worker after the events `evs`, in their order.
    pub open spec fn run(self, evs: Seq<Event<J>>) -> WorkerView<J>
        decreases evs.len(),
    {
        if evs.len() == 0 {
            self
        } else {
            self.run(evs.drop_last()).apply(evs.last())
        }
    }

    /// The jobs that were handed to executors of the worker in the course of
    /// `evs`, in their order.
    pub open spec fn dispatched_in(self, evs: Seq<Event<J>>) -> Seq<J>
        decreases evs.len(),
    {
        if evs.len() == 0 {
            Seq::empty()
        } else {
            self.dispatched_in(evs.drop_last()) + self.run(evs.drop_last()).dispatched(
                evs.last(),
            )
        }
    }

    /// Whether each event of `evs` is one among the worker's own executors
    /// and can happen when its turn comes.
    pub open spec fn follows(self, evs: Seq<Event<J>>) -> bool
        decreases evs.len(),
    {
        evs.len() > 0 ==> {
            &&& self.follows(evs.drop_last())
            &&& evs.last().within(self.id as int)
            &&& self.run(evs.drop_last()).enabled(evs.last())
        }
    }

    /// Whether the events `evs` can happen in their order, take the worker
    /// to `end` and hand the jobs `handed` to its executors.
    pub open spec fn leads(
        self,
        evs: Seq<Event<J>>,
        end: WorkerView<J>,
        handed: Seq<J>,
    ) -> bool {
        &&& self.follows(evs)
        &&& self.run(evs) == end
        &&& self.dispatched_in(evs) == handed
    }
}

/// The jobs waiting in the private channels of `workers`, without their
/// order.
pub open spec fn held<J>(workers: Seq<WorkerView<J>>) -> Multiset<J>
    decreases workers.len(),
{
    if workers.len() == 0 {
        Multiset::empty()
    } else {
        held(workers.drop_last()).add(job_bag(workers.last().queue))
    }
}

impl<J> PoolView<J> {
    /// Whether `ev` can happen now. An event that cannot happen leaves the
    /// pool as it is.
    pub open spec fn enabled(self, ev: Event<J>) -> bool {
        match ev {
            Event::Submit(_) => self.phase is Live,
            Event::Close => self.phase is Live,
            Event::WorkerRecv(w) => self.can_worker_recv(w),
            Event::ExecutorRecv(w, e) => self.can_executor_recv(w, e),
            Event::ExecutorDone(w, e) => self.is_busy(w, e),
            Event::ExecutorFault(w, e) => self.is_busy(w, e),
            Event::JoinExecutor(w, e) => self.can_join_executor(w, e),
            Event::JoinWorker(w) => self.can_join_worker(w),
        }
    }

    /// The pool after `ev`.
    pub open spec fn apply(self, ev: Event<J>) -> PoolView<J> {
        match ev {
            Event::Submit(job) => self.submit(job),
            Event::Close => self.close(),
            Event::WorkerRecv(w) => self.worker_recv(w),
            Event::ExecutorRecv(w, e) => self.executor_recv(w, e),
            Event::ExecutorDone(w, e) => self.executor_release(w, e, ExecutorStatus::Idle),
            Event::ExecutorFault(w, e) => self.executor_release(w, e, ExecutorStatus::Faulted),
            Event::JoinExecutor(w, e) => self.join_executor(w, e),
            Event::JoinWorker(w) => self.join_worker(w),
        }
    }

    /// The jobs that enter the pool by `ev`: the job of a submission that the
    /// pool accepts.
    pub open spec fn accepted(self, ev: Event<J>) -> Seq<J> {
        match ev {
            Event::Submit(job) => if self.phase is Live {
                seq![job]
            } else {
                Seq::empty()
            },
            _ => Seq::empty(),
        }
    }

    /// The jobs that `ev` hands to an executor to be run: the job that an
    /// executor receives.
    pub open spec fn dispatched(self, ev: Event<J>) -> Seq<J> {
        match ev {
            Event::ExecutorRecv(w, e) => match self.executor_step(w, e) {
                ExecutorStep::Run(job) => seq![job],
                _ => Seq::empty(),
            },
            _ => Seq::empty(),
        }
    }

    /// The jobs waiting in any channel of the pool, without their order.
    pub open spec fn pending(self) -> Multiset<J> {
        job_bag(self.queue).add(held(self.workers))
    }

    /// The pool after the events `evs`, in their order.
    pub open spec fn run(self, evs: Seq<Event<J>>) -> PoolView<J>
        decreases evs.len(),
    {
        if evs.len() == 0 {
            self
        } else {
            self.run(evs.drop_last()).apply(evs.last())
        }
    }

    /// The jobs that the pool accepted in the course of `evs`, in their
    /// order.
    pub open spec fn accepted_in(self, evs: Seq<Event<J>>) -> Seq<J>
        decreases evs.len(),
    {
        if evs.len() == 0 {
            Seq::empty()
        } else {
            self.accepted_in(evs.drop_last()) + self.run(evs.drop_last()).accepted(evs.last())
        }
    }

    /// The jobs that were handed to executors in the course of `evs`, in
    /// their order.
    pub open spec fn dispatched_in(self, evs: Seq<Event<J>>) -> Seq<J>
        decreases evs.len(),
    {
        if evs.len() == 0 {
            Seq::empty()
        } else {
            self.dispatched_in(evs.drop_last()) + self.run(evs.drop_last()).dispatched(
                evs.last(),
            )
        }
    }

    /// Whether each event of `evs` can happen when its turn comes and none
    /// brings new work: none is a submission or the start of disposal.
    pub open spec fn follows(self, evs: Seq<Event<J>>) -> bool
        decreases evs.len(),
    {
        evs.len() > 0 ==> {
            &&& self.follows(evs.drop_last())
            &&& self.run(evs.drop_last()).enabled(evs.last())
            &&& !(evs.last() is Submit)
            &&& !(evs.last() is Close)
        }
    }

    /// Whether the events `evs` can happen in their order, take the pool to
    /// `end` and hand the jobs `handed` to executors.
    pub open spec fn leads(self, evs: Seq<Event<J>>, end: PoolView<J>, handed: Seq<J>) -> bool {
        &&& self.follows(evs)
        &&& self.run(evs) == end
        &&& self.dispatched_in(evs) == handed
    }

    /// Whether every worker still has an executor that no faulting job has
    /// taken from it.
    pub open spec fn keeps_capacity(self) -> bool {
        forall|w: int| 0 <= w < self.workers.len() ==> (#[trigger] self.workers[w]).has_capacity()
    }

    /// Whether no thread can receive: each is busy, gone, or waiting on an
    /// empty channel.
    pub open spec fn stalled(self) -> bool {
        &&& forall|w: int| !#[trigger] self.can_worker_recv(w)
        &&& forall|w: int, e: int| !#[trigger] self.can_executor_recv(w, e)
    }
}

impl<J> PoolView<J> {
    /// One event more extends a run.
    pub proof fn lemma_leads_push(self, evs: Seq<Event<J>>, ev: Event<J>)
        requires
            self.follows(evs),
            self.run(evs).enabled(ev),
            !(ev is Submit),
            !(ev is Close),
        ensures
            self.leads(
                evs.push(ev),
                self.run(evs).apply(ev),
                self.dispatched_in(evs) + self.run(evs).dispatched(ev),
            ),
    {
        assert(evs.push(ev).drop_last() =~= evs);
    }

    /// Two runs, one after the other, are one run.
    pub proof fn lemma_leads_add(self, first: Seq<Event<J>>, then: Seq<Event<J>>)
        requires
            self.follows(first),
            self.run(first).follows(then),
        ensures
            self.leads(
                first + then,
                self.run(first).run(then),
                self.dispatched_in(first) + self.run(first).dispatched_in(then),
            ),
        decreases then.len(),
    {
        let mid = self.run(first);
        if then.len() == 0 {
            assert(first + then =~= first);
            assert(self.dispatched_in(first) + mid.dispatched_in(then) =~= self.dispatched_in(
                first,
            ));
        } else {
            let before = then.drop_last();
            self.lemma_leads_add(first, before);
            assert((first + then).drop_last() =~= first + before);
            assert(self.dispatched_in(first + then) =~= self.dispatched_in(first)
                + mid.dispatched_in(then));
        }
    }

    /// What happens among the executors of one worker is a run of the pool
    /// that touches nothing but that worker.
    pub proof fn lemma_worker_run(self, w: int, evs: Seq<Event<J>>)
        requires
            0 <= w < self.workers.len(),
            self.workers[w].id == w,
            self.workers[w].follows(evs),
        ensures
            self.leads(
                evs,
                self.with_worker(w, self.workers[w].run(evs)),
                self.workers[w].dispatched_in(evs),
            ),
        decreases evs.len(),
    {
        let worker = self.workers[w];
        if evs.len() == 0 {
            assert(self.with_worker(w, worker).workers =~= self.workers);
        } else {
            let before = evs.drop_last();
            let ev = evs.last();
            self.lemma_worker_run(w, before);
            let mid = self.run(before);
            assert(mid.workers[w] == worker.run(before));
            assert(mid.with_worker(w, worker.run(before).apply(ev)).workers =~= self.with_worker(
                w,
                worker.run(evs),
            ).workers);
            assert(worker.run(before).id == worker.id) by {
                worker.lemma_run_keeps_id(before);
            }
        }
    }
}

impl<J> WorkerView<J> {
    /// No event among a worker's executors changes the worker's place.
    pub proof fn lemma_run_keeps_id(self, evs: Seq<Event<J>>)
        ensures
            self.run(evs).id == self.id,
        decreases evs.len(),
    {
        if evs.len() > 0 {
            self.lemma_run_keeps_id(evs.drop_last());
        }
    }

    /// One event more extends a run among a worker's executors.
    pub proof fn lemma_leads_push(self, evs: Seq<Event<J>>, ev: Event<J>)
        requires
            self.follows(evs),
            ev.within(self.id as int),
            self.run(evs).enabled(ev),
        ensures
            self.leads(
                evs.push(ev),
                self.run(evs).apply(ev),
                self.dispatched_in(evs) + self.run(evs).dispatched(ev),
            ),
    {
        assert(evs.push(ev).drop_last() =~= evs);
    }
}

} // verus!
