//! The FIFO scheduling policy: a single cooperative queue, first in first
//! out, no priorities and no time slices.

use vstd::prelude::*;

verus! {

/// A FIFO ready queue of task table slots.
#[derive(Debug)]
pub struct FifoScheduler {
    /// Queued slots, oldest first.
    pub ready_queue: Vec<usize>,
}

impl FifoScheduler {
    /// The sentinel the priority hint reports for an empty queue; a queue
    /// with work always reports less.
    pub open spec fn spec_sentinel() -> int {
        1
    }

    /// An empty FIFO queue.
    pub fn new() -> (r: FifoScheduler)
        ensures
            r.ready_queue@ == Seq::<usize>::empty(),
    {
        FifoScheduler { ready_queue: Vec::new() }
    }

    /// Appends a task at the back of the queue.
    pub fn add_task(&mut self, slot: usize)
        ensures
            final(self).ready_queue@ == old(self).ready_queue@.push(slot),
    {
        self.ready_queue.push(slot);
    }

    /// Takes the task that has waited longest, if any: exactly the front
    /// of the queue.
    pub fn pick_next_task(&mut self) -> (r: Option<usize>)
        ensures
            old(self).ready_queue@.len() == 0 ==> r is None && *final(self) == *old(self),
            old(self).ready_queue@.len() > 0 ==> {
                &&& r == Some(old(self).ready_queue@[0])
                &&& final(self).ready_queue@ == old(self).ready_queue@.drop_first()
            },
    {
        if self.ready_queue.len() > 0 {
            let slot = self.ready_queue.remove(0);
            proof {
                assert(final(self).ready_queue@ =~= old(self).ready_queue@.drop_first());
            }
            Some(slot)
        } else {
            None
        }
    }

    /// The priority hint: FIFO has a single class of work, so a nonempty
    /// queue reports 0 and an empty one the sentinel.
    pub fn highest_priority(&self) -> (r: usize)
        ensures
            self.ready_queue@.len() == 0 ==> r == FifoScheduler::spec_sentinel(),
            self.ready_queue@.len() > 0 ==> r == 0,
    {
        if self.ready_queue.len() == 0 { 1 } else { 0 }
    }

    /// Per-tick accounting: the FIFO policy is purely cooperative, so a
    /// tick never expires a slice and never requests a reschedule.
    pub fn task_tick(&mut self) -> (r: bool)
        ensures
            *final(self) == *old(self),
            r == false,
    {
        false
    }

    /// The FIFO policy has no priorities: every requested priority is
    /// rejected.
    pub fn set_priority(&mut self, _slot: usize, _priority: isize) -> (r: bool)
        ensures
            *final(self) == *old(self),
            r == false,
    {
        false
    }
}

} // verus!
