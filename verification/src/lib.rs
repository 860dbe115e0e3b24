//! A kernel-style futex subsystem: canonical keys for userspace futex words,
//! hash-bucketed wait queues of blocked tasks, and the wait/wake/requeue
//! engine over them, together with lifecycle cleanup for exiting tasks and
//! processes.
//!
//! The store of wait queues is an explicitly constructed [`queues::FutexQueues`]
//! value that callers own and pass in; suspension, task notification and the
//! raw read of the futex word are the surrounding kernel's work and are
//! represented here as plain inputs and outputs of the engine's decision
//! functions.

pub mod queues;
pub mod flags;
pub mod futex;
pub mod waitwake;
