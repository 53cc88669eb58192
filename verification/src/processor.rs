//! Per-CPU processor state: the numeric CPU identity, the exclusive local
//! scheduler, the current task, the stack pool, the idle and boot tasks,
//! and the switch-guard slot that keeps interrupts away from a half-saved
//! context.

use vstd::prelude::*;

use crate::sched_prio::Scheduler;
use crate::stack_pool::StackPool;

verus! {

/// The per-CPU singleton. Task fields name slots in the runtime's task
/// table; the runtime's well-formedness invariant ties them together.
#[derive(Debug)]
pub struct Processor {
    /// Numeric CPU identity.
    pub id: usize,
    /// The local ready queues, used only by this CPU.
    pub local_scheduler: Scheduler,
    /// Slot of the task currently executing on this CPU.
    pub current_task: usize,
    /// Slot of this CPU's idle task, run when every queue is empty.
    pub idle_task: usize,
    /// Slot of the synthetic task standing for the boot execution.
    pub original_task: usize,
    /// The kernel stacks this CPU manages.
    pub stack_pool: StackPool,
    /// The IRQ-save token held across a context switch: `Some` carries the
    /// saved status word while interrupts are off for a switch.
    pub switch_guard: Option<usize>,
}

impl Processor {
    /// Takes the switch guard, recording the status word the hardware held
    /// before interrupts were turned off. Taking it twice is forbidden.
    pub fn acquire_switch_guard(&mut self, sstatus: usize)
        requires
            old(self).switch_guard is None,
        ensures
            *final(self) == (Processor { switch_guard: Some(sstatus), ..*old(self) }),
    {
        self.switch_guard = Some(sstatus);
    }

    /// Reads the status word saved when the guard was taken.
    pub fn get_sstatus_in_switch_guard(&self) -> (r: usize)
        requires
            self.switch_guard is Some,
        ensures
            r == self.switch_guard->0,
    {
        match self.switch_guard {
            Some(sstatus) => sstatus,
            None => 0,
        }
    }

    /// Releases the switch guard, letting interrupts back in. Releasing a
    /// guard that is not held is forbidden.
    pub fn release_switch_guard(&mut self)
        requires
            old(self).switch_guard is Some,
        ensures
            *final(self) == (Processor { switch_guard: None, ..*old(self) }),
    {
        self.switch_guard = None;
    }
}

} // verus!
