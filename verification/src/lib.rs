//! A dependency-ordered task scheduler.
//!
//! A fixed set of named tasks declare which other tasks must finish before
//! they may start.  From those declarations the [`scheduler::Scheduler`]
//! builds a dependency graph once, and then drives an unbounded succession of
//! cycles: each cycle spawns every task with no prerequisites, and as each
//! running task releases its completion handle, the remaining-prerequisite
//! counts of its dependents are decremented, spawning any task whose count
//! reaches zero.  A cycle ends when every spawned task has released its
//! handle; the next cycle restarts from the same ready set.
//!
//! The scheduler core here is a pure state machine: the host embedding it
//! performs the actual concurrent spawning and forwards completion
//! notifications back into the engine.

pub mod graph;
pub mod scheduler;
pub mod system;
