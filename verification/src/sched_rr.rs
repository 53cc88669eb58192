//! The round-robin scheduling policy: a FIFO queue plus a fixed time
//! slice; when the running task's slice runs out the tick requests a
//! reschedule and the slice starts over.

use vstd::prelude::*;

verus! {

/// Ticks in one scheduling slice.
pub const MAX_TIME_SLICE: usize = 5;

/// A round-robin ready queue of task table slots, with the slice budget
/// of the task currently running under this policy.
#[derive(Debug)]
pub struct RrScheduler {
    /// Queued slots, oldest first.
    pub ready_queue: Vec<usize>,
    /// Ticks the current task may still run before its slice expires.
    pub current_slice: usize,
}

impl RrScheduler {
    /// The slice budget is never above the slice length.
    pub open spec fn wf(self) -> bool {
        self.current_slice <= MAX_TIME_SLICE
    }

    /// An empty round-robin queue with a fresh slice.
    pub fn new() -> (r: RrScheduler)
        ensures
            r.wf(),
            r.ready_queue@ == Seq::<usize>::empty(),
            r.current_slice == MAX_TIME_SLICE,
    {
        RrScheduler { ready_queue: Vec::new(), current_slice: MAX_TIME_SLICE }
    }

    /// Appends a task at the back of the queue.
    pub fn add_task(&mut self, slot: usize)
        requires
            old(self).wf(),
        ensures
            final(self).wf(),
            final(self).ready_queue@ == old(self).ready_queue@.push(slot),
            final(self).current_slice == old(self).current_slice,
    {
        self.ready_queue.push(slot);
    }

    /// Takes the front of the queue and grants it a full slice.
    pub fn pick_next_task(&mut self) -> (r: Option<usize>)
        requires
            old(self).wf(),
        ensures
            final(self).wf(),
            final(self).current_slice == MAX_TIME_SLICE,
            old(self).ready_queue@.len() == 0 ==> r is None
                && final(self).ready_queue@ == old(self).ready_queue@,
            old(self).ready_queue@.len() > 0 ==> {
                &&& r == Some(old(self).ready_queue@[0])
                &&& final(self).ready_queue@ == old(self).ready_queue@.drop_first()
            },
    {
        self.current_slice = MAX_TIME_SLICE;
        if self.ready_queue.len() > 0 {
            let slot = self.ready_queue.remove(0);
            proof {
                assert(final(self).ready_queue@ =~= old(self).ready_queue@.drop_first());
            }
            Some(slot)
        } else {
            None
        }
    }

    /// The priority hint: one class of work, so a nonempty queue reports 0
    /// and an empty one the sentinel 1.
    pub fn highest_priority(&self) -> (r: usize)
        ensures
            self.ready_queue@.len() == 0 ==> r == 1,
            self.ready_queue@.len() > 0 ==> r == 0,
    {
        if self.ready_queue.len() == 0 { 1 } else { 0 }
    }

    /// Per-tick accounting: burns one tick of the current slice and
    /// requests a reschedule exactly when the slice is spent, starting the
    /// next slice over.
    pub fn task_tick(&mut self) -> (r: bool)
        requires
            old(self).wf(),
        ensures
            final(self).wf(),
            final(self).ready_queue@ == old(self).ready_queue@,
            r == (old(self).current_slice <= 1),
            r ==> final(self).current_slice == MAX_TIME_SLICE,
            !r ==> final(self).current_slice == old(self).current_slice - 1,
    {
        if self.current_slice <= 1 {
            self.current_slice = MAX_TIME_SLICE;
            true
        } else {
            self.current_slice = self.current_slice - 1;
            false
        }
    }

    /// The round-robin policy has no priorities: every requested priority
    /// is rejected.
    pub fn set_priority(&mut self, _slot: usize, _priority: isize) -> (r: bool)
        ensures
            *final(self) == *old(self),
            r == false,
    {
        false
    }
}

} // verus!
