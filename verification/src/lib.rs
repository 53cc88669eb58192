//! Core of a bare-metal, multi-CPU task-management runtime: a unified
//! thread/coroutine task object with a four-state life cycle, a two-tier
//! (per-CPU local plus shared global) ready-queue scheduler with pluggable
//! policies, block queues with conditional wake fan-out, per-CPU processor
//! state with a stack pool and a switch guard, and the trap-dispatch and
//! timer decision logic.
//!
//! Everything that decides — state transitions, queue placement, pick-next
//! selection, wake counting, preemption accounting, trap routing — lives
//! here and is verified. The hardware edge (assembly context switches,
//! interrupt control, the timer device) is driven by an executor outside
//! this crate: it feeds register frames and trap causes in, and performs
//! the switch action the runtime hands back.

pub mod reg_context;
pub mod processor;
pub mod runtime;
pub mod sched_cfs;
pub mod sched_fifo;
pub mod sched_prio;
pub mod sched_rr;
pub mod stack_pool;
pub mod trap;
pub mod task;

use vstd::prelude::*;

verus! {

} // verus!
