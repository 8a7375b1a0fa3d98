//! The leaf of the pool: one thread that runs jobs, one at a time.

use crate::message::Message;
use vstd::prelude::*;

verus! {

/// Where a leaf thread stands in its life.
#[derive(Clone, Copy, PartialEq, Eq, Debug, Structural)]
pub enum ExecutorStatus {
    /// In its loop, waiting for the next message.
    Idle,
    /// In its loop, running a job; it receives nothing until the job returns.
    Busy,
    /// Left its loop on a stop order.
    Exited,
    /// Died with a job that raised a fault. Nothing replaces it.
    Faulted,
}

/// One leaf thread: its index among its siblings, where it stands, and
/// whether its thread handle has been consumed by a join.
#[derive(Clone, Copy, PartialEq, Eq, Debug, Structural)]
pub struct Executor {
    pub id: usize,
    pub status: ExecutorStatus,
    pub joined: bool,
}

/// The predicate "left its loop on a stop order".
pub open spec fn has_exited() -> spec_fn(Executor) -> bool {
    |x: Executor| x.status is Exited
}

impl Executor {
    /// Whether the thread has ended, in either way.
    pub open spec fn gone(self) -> bool {
        self.status is Exited || self.status is Faulted
    }

    /// Only a thread that has ended can have been joined.
    pub open spec fn inv(self) -> bool {
        self.joined ==> self.gone()
    }

    /// The executor after it has received `m` while idle.
    pub open spec fn received<J>(self, m: Message<J>) -> Executor {
        Executor {
            status: match m {
                Message::NewJob(_) => ExecutorStatus::Busy,
                Message::Terminate => ExecutorStatus::Exited,
            },
            ..self
        }
    }

    /// The executor with its status replaced.
    pub open spec fn with_status(self, status: ExecutorStatus) -> Executor {
        Executor { status, ..self }
    }

    /// The executor after its thread handle has been consumed.
    pub open spec fn after_join(self) -> Executor {
        Executor { joined: true, ..self }
    }

    /// A fresh executor, waiting for its first message.
    pub fn new(id: usize) -> (x: Executor)
        ensures
            x == (Executor { id, status: ExecutorStatus::Idle, joined: false }),
    {
        Executor { id, status: ExecutorStatus::Idle, joined: false }
    }

    /// One turn of the leaf's loop: handles the message just received. A job
    /// is handed back for the caller to run on this executor's thread; a stop
    /// order ends the loop and hands back nothing.
    pub fn on_message<J>(&mut self, m: Message<J>) -> (job: Option<J>)
        requires
            old(self).status is Idle,
        ensures
            *final(self) == old(self).received(m),
            job == match m {
                Message::NewJob(j) => Some(j),
                Message::Terminate => None,
            },
    {
        match m {
            Message::NewJob(j) => {
                self.status = ExecutorStatus::Busy;
                Some(j)
            },
            Message::Terminate => {
                self.status = ExecutorStatus::Exited;
                None
            },
        }
    }

    /// The job that the executor was running has returned.
    pub fn finish(&mut self)
        requires
            old(self).status is Busy,
        ensures
            *final(self) == old(self).with_status(ExecutorStatus::Idle),
    {
        self.status = ExecutorStatus::Idle;
    }

    /// The job that the executor was running raised a fault and took the
    /// thread with it.
    pub fn fault(&mut self)
        requires
            old(self).status is Busy,
        ensures
            *final(self) == old(self).with_status(ExecutorStatus::Faulted),
    {
        self.status = ExecutorStatus::Faulted;
    }

    /// Consumes the thread handle of an executor that has ended.
    pub fn join(&mut self)
        requires
            old(self).gone(),
            !old(self).joined,
        ensures
            *final(self) == old(self).after_join(),
    {
        self.joined = true;
    }
}

} // verus!
