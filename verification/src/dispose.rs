//! Disposal carried out by a single caller, one thread's turn after the
//! other, and what it leaves behind.

use crate::channel::{jobs_of, stops, wrap};
use crate::count::count_where;
use crate::executor::{has_exited, Executor, ExecutorStatus};
use crate::message::Message;
use crate::pool::{Phase, PoolView};
use crate::worker::{WorkerStatus, WorkerView};
use vstd::prelude::*;

verus! {

/// A job together with the executor that received it.
#[derive(PartialEq, Eq, Debug)]
pub struct Dispatch<J> {
    pub worker: usize,
    pub executor: usize,
    pub job: J,
}

/// The jobs of `ds`, in their order.
pub open spec fn jobs_in<J>(ds: Seq<Dispatch<J>>) -> Seq<J> {
    Seq::new(ds.len(), |i: int| ds[i].job)
}

/// The jobs `jobs`, in their order, all received by one executor.
pub open spec fn assign<J>(jobs: Seq<J>, worker: usize, executor: usize) -> Seq<Dispatch<J>> {
    Seq::new(jobs.len(), |i: int| Dispatch { worker, executor, job: jobs[i] })
}

impl<J> WorkerView<J> {
    /// Whether no executor of the worker is running a job.
    pub open spec fn at_rest(self) -> bool {
        forall|e: int|
            0 <= e < self.executors.len() ==> !((#[trigger] self.executors[e]).status is Busy)
    }

    /// Whether the worker has just left its loop: none of its executors has
    /// met its stop order yet.
    pub open spec fn just_stopped(self) -> bool {
        &&& self.status is Stopping
        &&& forall|e: int|
            0 <= e < self.executors.len() ==> !((#[trigger] self.executors[e]).status is Exited)
                && !self.executors[e].joined
    }

    /// Whether `e` is the first executor that waits for a message.
    pub open spec fn is_taker(self, e: int) -> bool {
        &&& 0 <= e < self.executors.len()
        &&& self.executors[e].status is Idle
        &&& forall|i: int| 0 <= i < e ==> !((#[trigger] self.executors[i]).status is Idle)
    }

    /// Whether some executor waits for a message.
    pub open spec fn has_idle(self) -> bool {
        exists|e: int| self.is_taker(e)
    }

    /// The first executor that waits for a message, where there is one.
    pub open spec fn taker(self) -> int {
        choose|e: int| self.is_taker(e)
    }

    /// The worker after `jobs` have been forwarded to it.
    pub open spec fn fed(self, jobs: Seq<J>) -> WorkerView<J> {
        WorkerView { queue: self.queue + wrap(jobs), ..self }
    }

    /// The executors after each of them has had its turn, in their order:
    /// those that waited have met their stop orders, and all are joined.
    pub open spec fn settled_executors(self) -> Seq<Executor> {
        Seq::new(
            self.executors.len(),
            |e: int|
                Executor {
                    id: self.executors[e].id,
                    status: if self.executors[e].status is Idle {
                        ExecutorStatus::Exited
                    } else {
                        self.executors[e].status
                    },
                    joined: true,
                },
        )
    }

    /// A worker that has just left its loop, after each of its executors has
    /// had its turn, in their order. The first that waits receives every job
    /// and then its stop order; each later one that waits receives its stop
    /// order; the stop orders of those lost to faults stay in the channel.
    /// Where none waits, the channel stays as it is.
    pub open spec fn settled(self) -> WorkerView<J> {
        let executors = self.settled_executors();
        WorkerView {
            status: WorkerStatus::Exited,
            executors,
            queue: if self.has_idle() {
                stops((self.executors.len() - count_where(executors, has_exited())) as nat)
            } else {
                self.queue
            },
            ..self
        }
    }

    /// What the executors of a worker that has just left its loop receive
    /// when each has its turn, in their order: the first that waits receives
    /// every job of the private channel, oldest first.
    pub open spec fn runs(self) -> Seq<Dispatch<J>> {
        if self.has_idle() {
            assign(jobs_of(self.queue), self.id, self.taker() as usize)
        } else {
            Seq::empty()
        }
    }

    /// Where an executor waits, some executor is the first that waits.
    pub proof fn lemma_find_taker(self, from: int, e: int) -> (t: int)
        requires
            0 <= from <= e < self.executors.len(),
            self.executors[e].status is Idle,
            forall|i: int| 0 <= i < from ==> !((#[trigger] self.executors[i]).status is Idle),
        ensures
            self.is_taker(t),
        decreases e - from,
    {
        if self.executors[from].status is Idle {
            from
        } else {
            self.lemma_find_taker(from + 1, e)
        }
    }

    /// At most one executor is the first that waits.
    pub proof fn lemma_taker_unique(self, e: int)
        requires
            self.is_taker(e),
        ensures
            self.has_idle(),
            self.taker() == e,
    {
        let t = self.taker();
        assert(self.is_taker(t));
        if t < e {
            assert(!(self.executors[t].status is Idle));
        } else if e < t {
            assert(!(self.executors[e].status is Idle));
        }
    }
}

impl<J> PoolView<J> {
    /// Whether no executor of the pool is running a job.
    pub open spec fn at_rest(self) -> bool {
        forall|w: int| 0 <= w < self.workers.len() ==> (#[trigger] self.workers[w]).at_rest()
    }

    /// The jobs that worker `w` forwards when the workers have their turns in
    /// creation order: the first takes everything that waits in the shared
    /// channel.
    pub open spec fn intake(self, w: int) -> Seq<J> {
        if w == 0 {
            jobs_of(self.queue)
        } else {
            Seq::empty()
        }
    }

    /// Worker `w` when it has left its loop.
    pub open spec fn stopped_worker(self, w: int) -> WorkerView<J> {
        self.workers[w].fed(self.intake(w)).on_message(Message::Terminate)
    }

    /// A live pool after a disposal in which every thread has its turn in
    /// creation order, the workers first among themselves and each worker
    /// before its executors.
    pub open spec fn disposed(self) -> PoolView<J> {
        PoolView {
            phase: Phase::Disposed,
            queue: Seq::empty(),
            workers: Seq::new(
                self.workers.len(),
                |w: int| self.stopped_worker(w).settled().after_join(),
            ),
        }
    }

    /// What the executors of the first `k` workers receive in such a
    /// disposal, in the order in which they receive it.
    pub open spec fn drained_by(self, k: int) -> Seq<Dispatch<J>>
        decreases k,
    {
        if k <= 0 {
            Seq::empty()
        } else {
            self.drained_by(k - 1) + self.stopped_worker(k - 1).runs()
        }
    }

    /// What the executors receive in such a disposal.
    pub open spec fn drained(self) -> Seq<Dispatch<J>> {
        self.drained_by(self.workers.len() as int)
    }
}

} // verus!
