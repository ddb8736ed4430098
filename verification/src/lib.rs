//! A cooperative, multi-process task scheduler that coordinates through a
//! shared filesystem directory tree. Each process submits tasks with a
//! priority and a set of acceptable resources; pending tasks are encoded as
//! directory entries, each resource elects the highest-priority pending task,
//! and records abandoned by crashed peers are reclaimed.
//!
//! This crate holds the scheduler's logic: the filename encoding of task
//! identities, the ranking of pending tasks, the per-resource election step,
//! the stale-peer reaper rule, and the process-wide ledger of owned tasks.
//! The filesystem itself (directory scans, advisory locks, unlinking) is the
//! caller's side of the bargain: the election step receives a scan of a
//! resource directory as plain values and answers with the action to perform.

pub mod candidate;
pub mod digits;
pub mod election;
pub mod laws;
pub mod process;
pub mod resource_scheduler;
pub mod root;
pub mod scheduler;
pub mod strutil;
pub mod task;
pub mod task_ident;
