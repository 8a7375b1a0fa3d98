//! What travels through a channel: a job, or the order to stop.

use vstd::prelude::*;

verus! {

/// One item of a channel. `NewJob` carries a unit of work to whoever dequeues
/// it; `Terminate` tells exactly one receiving thread to leave its loop.
#[derive(PartialEq, Eq, Debug)]
pub enum Message<J> {
    NewJob(J),
    Terminate,
}

impl<J> Message<J> {
    /// Wraps a job for sending.
    pub fn job(job: J) -> (m: Message<J>)
        ensures
            m == Message::NewJob(job),
    {
        Message::NewJob(job)
    }

    /// Whether this message is the order to stop.
    pub fn is_terminate(&self) -> (b: bool)
        ensures
            b == (*self is Terminate),
    {
        match self {
            Message::NewJob(_) => false,
            Message::Terminate => true,
        }
    }
}

} // verus!
