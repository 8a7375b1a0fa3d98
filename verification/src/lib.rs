//! A fixed-size, two-level worker pool, stated as a protocol.
//!
//! A pool owns one shared channel and a fixed set of workers. Each worker
//! passes the jobs that it receives on to a private channel, from which a
//! fixed set of executors of its own draws. Stop orders travel the same way:
//! one for each worker on the shared channel, and from each worker one for
//! each of its executors.
//!
//! The pool in this crate holds the channels and the state of every thread,
//! and no thread. A driver reports what its threads do (a receive, the end of
//! a job, a join) and the pool says what follows. The laws of the protocol are
//! proved for every order in which threads can take their turns.

pub mod channel;
pub mod count;
pub mod dispose;
pub mod event;
pub mod executor;
pub mod http;
pub mod laws;
pub mod message;
pub mod pool;
pub mod progress;
pub mod worker;

pub use crate::dispose::Dispatch;
pub use crate::executor::{Executor, ExecutorStatus};
pub use crate::message::Message;
pub use crate::pool::{Phase, PoolError, ThreadPool};
pub use crate::worker::{ExecutorStep, Worker, WorkerStatus, WorkerStep};
