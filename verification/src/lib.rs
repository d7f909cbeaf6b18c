//! An IPv4 scanner's core, verified: address specifications are expanded
//! into groups of targets and sampled, and the targets are handed by round
//! robin to a fixed pool of workers, each of which runs a bounded number of
//! task-handler invocations at a time and finishes only when all of its work
//! has completed.
//!
//! The engine is a set of state machines that never wait. Whoever drives
//! them performs what they decide (start an invocation, wait for room, wait
//! for a worker) and reports back what happened (a message was consumed, an
//! invocation has ended). [`worker_engine::WorkerEngine::run`] is such a
//! driver for a single thread.

pub mod distributor;
pub mod ip_creator;
pub mod ipv4;
pub mod mailbox;
pub mod supervisor;
pub mod task_handler;
pub mod text;
pub mod timer;
pub mod worker_engine;
