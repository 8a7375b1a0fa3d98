//! Disposal ends: a bound on the steps that a pool can still take once its
//! stop orders are out.

use crate::count::{count_where, lemma_count_update};
use crate::event::Event;
use crate::executor::Executor;
use crate::message::Message;
use crate::pool::PoolView;
use crate::worker::WorkerView;
use vstd::prelude::*;

verus! {

/// The predicate "is running a job".
pub open spec fn is_busy() -> spec_fn(Executor) -> bool {
    |x: Executor| x.status is Busy
}

/// The predicate "has not been joined".
pub open spec fn is_unjoined() -> spec_fn(Executor) -> bool {
    |x: Executor| !x.joined
}

impl<J> WorkerView<J> {
    /// The steps that the worker and its executors can still take on what
    /// the private channel holds: two for each message that waits (its
    /// receipt, and the end of the job if it is one), one for each job that
    /// is running, and one for each join that is due.
    pub open spec fn work_left(self) -> nat {
        2 * self.queue.len() + count_where(self.executors, is_busy()) + count_where(
            self.executors,
            is_unjoined(),
        ) + if self.joined {
            0nat
        } else {
            1nat
        }
    }
}

/// The steps that `workers` can still take between them on what their
/// private channels hold.
pub open spec fn load<J>(workers: Seq<WorkerView<J>>) -> nat
    decreases workers.len(),
{
    if workers.len() == 0 {
        0
    } else {
        load(workers.drop_last()) + workers.last().work_left()
    }
}

/// Replacing one worker trades its share of the load for the new one's.
proof fn lemma_load_update<J>(workers: Seq<WorkerView<J>>, w: int, worker: WorkerView<J>)
    requires
        0 <= w < workers.len(),
    ensures
        load(workers.update(w, worker)) + workers[w].work_left() == load(workers)
            + worker.work_left(),
    decreases workers.len(),
{
    let next = workers.update(w, worker);
    if w == workers.len() - 1 {
        assert(next.drop_last() =~= workers.drop_last());
    } else {
        lemma_load_update(workers.drop_last(), w, worker);
        assert(next.drop_last() =~= workers.drop_last().update(w, worker));
    }
}

impl<J> PoolView<J> {
    /// A bound on the steps that the pool's threads can still take, counting
    /// every message of the shared channel with the steps that it can give
    /// rise to further down.
    pub open spec fn work_left(self) -> nat {
        (2 * self.workers.len() + 2) * self.queue.len() + load(self.workers)
    }

    /// Every step that a thread takes uses up work: whatever happens, other
    /// than a submission or the start of disposal, leaves less to do.
    pub proof fn lemma_step_uses_work(self, ev: Event<J>)
        requires
            self.inv(),
            self.enabled(ev),
            !(ev is Submit),
            !(ev is Close),
        ensures
            self.apply(ev).work_left() < self.work_left(),
    {
        let n = self.workers.len();
        let next = self.apply(ev);
        match ev {
            Event::WorkerRecv(w) => {
                let worker = self.workers[w];
                lemma_load_update(self.workers, w, next.workers[w]);
                assert(next.workers =~= self.workers.update(w, next.workers[w]));
                assert(next.queue.len() == self.queue.len() - 1);
                assert((2 * n + 2) * next.queue.len() == (2 * n + 2) * self.queue.len() - (2 * n
                    + 2)) by (nonlinear_arith)
                    requires
                        next.queue.len() == self.queue.len() - 1,
                ;
                assert(worker.executors.len() == n);
                match self.queue[0] {
                    Message::NewJob(_) => {
                        assert(next.workers[w].queue.len() == worker.queue.len() + 1);
                    },
                    Message::Terminate => {
                        assert(next.workers[w].queue.len() == worker.queue.len() + n);
                    },
                }
            },
            Event::ExecutorRecv(w, e) => {
                let worker = self.workers[w];
                let x = worker.executors[e].received(worker.queue[0]);
                lemma_load_update(self.workers, w, worker.take(e));
                lemma_count_update(worker.executors, is_busy(), e, x);
                lemma_count_update(worker.executors, is_unjoined(), e, x);
            },
            Event::ExecutorDone(w, e) => {
                let worker = self.workers[w];
                let x = worker.executors[e].with_status(crate::executor::ExecutorStatus::Idle);
                lemma_load_update(self.workers, w, next.workers[w]);
                lemma_count_update(worker.executors, is_busy(), e, x);
                lemma_count_update(worker.executors, is_unjoined(), e, x);
            },
            Event::ExecutorFault(w, e) => {
                let worker = self.workers[w];
                let x = worker.executors[e].with_status(crate::executor::ExecutorStatus::Faulted);
                lemma_load_update(self.workers, w, next.workers[w]);
                lemma_count_update(worker.executors, is_busy(), e, x);
                lemma_count_update(worker.executors, is_unjoined(), e, x);
            },
            Event::JoinExecutor(w, e) => {
                let worker = self.workers[w];
                let x = worker.executors[e].after_join();
                lemma_load_update(self.workers, w, worker.join(e));
                lemma_count_update(worker.executors, is_busy(), e, x);
                lemma_count_update(worker.executors, is_unjoined(), e, x);
            },
            Event::JoinWorker(w) => {
                lemma_load_update(self.workers, w, self.workers[w].after_join());
            },
            _ => {},
        }
    }

    /// Disposal ends, whatever the order in which the threads take their
    /// turns: once no new work comes in, no run of steps is longer than the
    /// work that was left when it began.
    pub proof fn lemma_steps_are_bounded(self, evs: Seq<Event<J>>)
        requires
            self.inv(),
            self.follows(evs),
        ensures
            evs.len() + self.run(evs).work_left() <= self.work_left(),
        decreases evs.len(),
    {
        if evs.len() > 0 {
            let before = evs.drop_last();
            self.lemma_steps_are_bounded(before);
            self.lemma_run_inv(before);
            self.run(before).lemma_step_uses_work(evs.last());
        }
    }
}

} // verus!
