//! The fair scheduling policy: every queued task carries a virtual
//! runtime; the pick always takes the task that has run least, and a tick
//! requests a reschedule once the running task has consumed more virtual
//! time than the best waiter.

use vstd::prelude::*;

use crate::runtime::lemma_vec_len_bound;

verus! {

/// The niceness bounds the policy accepts.
pub const CFS_NICE_MIN: isize = -20;
/// One past the largest accepted niceness.
pub const CFS_NICE_MAX: isize = 19;

/// One queued task of the fair policy: the slot and its accumulated
/// virtual runtime.
#[derive(Debug, Clone, Copy, PartialEq, Eq, Structural)]
pub struct CfsTask {
    /// Task table slot.
    pub slot: usize,
    /// Accumulated virtual runtime; lower means more entitled to run.
    pub vruntime: u64,
}

/// A fair ready queue ordered by virtual runtime.
#[derive(Debug)]
pub struct CfsScheduler {
    /// Queued tasks, in arrival order; the pick scans for the minimum.
    pub queue: Vec<CfsTask>,
}

impl CfsScheduler {
    /// The index of the first task with minimal virtual runtime among the
    /// entries from `i` on.
    pub open spec fn spec_min_index_from(self, i: int) -> int
        decreases self.queue@.len() - i,
    {
        if i < 0 || i >= self.queue@.len() {
            0
        } else if i == self.queue@.len() - 1 {
            i
        } else {
            let rest = self.spec_min_index_from(i + 1);
            if self.queue@[i].vruntime <= self.queue@[rest].vruntime {
                i
            } else {
                rest
            }
        }
    }

    /// The index the pick takes: the first entry of minimal virtual
    /// runtime.
    pub open spec fn spec_min_index(self) -> int {
        self.spec_min_index_from(0)
    }

    proof fn lemma_min_index_from(self, i: int)
        requires
            0 <= i < self.queue@.len(),
        ensures
            i <= self.spec_min_index_from(i) < self.queue@.len(),
            forall|j: int| i <= j < self.queue@.len() ==>
                self.queue@[self.spec_min_index_from(i)].vruntime
                    <= (#[trigger] self.queue@[j]).vruntime,
        decreases self.queue@.len() - i,
    {
        if i < self.queue@.len() - 1 {
            self.lemma_min_index_from(i + 1);
        }
    }

    /// The picked task never has more virtual runtime than any queued
    /// task.
    pub proof fn lemma_min_index(self)
        requires
            self.queue@.len() > 0,
        ensures
            0 <= self.spec_min_index() < self.queue@.len(),
            forall|j: int| 0 <= j < self.queue@.len() ==>
                self.queue@[self.spec_min_index()].vruntime
                    <= (#[trigger] self.queue@[j]).vruntime,
    {
        self.lemma_min_index_from(0);
    }

    /// An empty fair queue.
    pub fn new() -> (r: CfsScheduler)
        ensures
            r.queue@ == Seq::<CfsTask>::empty(),
    {
        CfsScheduler { queue: Vec::new() }
    }

    /// Enqueues a task with the given virtual runtime; a newly created
    /// task enters with the minimum of the queue so it does not starve it.
    pub fn add_task(&mut self, slot: usize, vruntime: u64)
        ensures
            final(self).queue@ == old(self).queue@.push(CfsTask { slot, vruntime }),
    {
        self.queue.push(CfsTask { slot, vruntime });
    }

    /// The smallest virtual runtime currently queued, or nothing when the
    /// queue is empty.
    pub fn min_vruntime(&self) -> (r: Option<u64>)
        ensures
            self.queue@.len() == 0 ==> r is None,
            self.queue@.len() > 0 ==> r == Some(self.queue@[self.spec_min_index()].vruntime),
    {
        proof {
            lemma_vec_len_bound(&self.queue);
            if self.queue@.len() > 0 {
                self.lemma_min_index();
            }
        }
        match self.peek_min_index() {
            Some(i) => Some(self.queue[i].vruntime),
            None => None,
        }
    }

    /// The position the pick would take, without taking it.
    fn peek_min_index(&self) -> (r: Option<usize>)
        ensures
            self.queue@.len() == 0 ==> r is None,
            self.queue@.len() > 0 ==> r == Some(self.spec_min_index() as usize),
    {
        if self.queue.len() == 0 {
            return None;
        }
        let ghost g = *self;
        let mut best: usize = self.queue.len() - 1;
        let mut i: usize = self.queue.len() - 1;
        while i > 0
            invariant
                *self == g,
                g.queue@.len() > 0,
                i < g.queue@.len(),
                best < g.queue@.len(),
                best as int == g.spec_min_index_from(i as int),
            decreases i,
        {
            i = i - 1;
            proof {
                g.lemma_min_index_from(i as int);
            }
            if self.queue[i].vruntime <= self.queue[best].vruntime {
                best = i;
            }
        }
        Some(best)
    }

    /// Takes the first task of minimal virtual runtime: the task that has
    /// run least is never passed over in favour of one that has run more.
    pub fn pick_next_task(&mut self) -> (r: Option<CfsTask>)
        ensures
            old(self).queue@.len() == 0 ==> r is None && *final(self) == *old(self),
            old(self).queue@.len() > 0 ==> {
                &&& r == Some(old(self).queue@[old(self).spec_min_index()])
                &&& final(self).queue@ == old(self).queue@.remove(old(self).spec_min_index())
                &&& (forall|j: int| 0 <= j < old(self).queue@.len() ==>
                    (r matches Some(t) && t.vruntime
                        <= (#[trigger] old(self).queue@[j]).vruntime))
            },
    {
        proof {
            lemma_vec_len_bound(&self.queue);
            if self.queue@.len() > 0 {
                self.lemma_min_index();
            }
        }
        match self.peek_min_index() {
            Some(i) => {
                let t = self.queue.remove(i);
                Some(t)
            },
            None => None,
        }
    }

    /// Per-tick accounting for the running task: its virtual runtime grows
    /// by one, and a reschedule is requested exactly when some queued task
    /// now has strictly less virtual runtime.
    pub fn task_tick(&self, current: &mut CfsTask) -> (r: bool)
        requires
            old(current).vruntime < u64::MAX,
        ensures
            final(current).slot == old(current).slot,
            final(current).vruntime == old(current).vruntime + 1,
            self.queue@.len() == 0 ==> r == false,
            self.queue@.len() > 0 ==> r == (self.queue@[self.spec_min_index()].vruntime
                < old(current).vruntime + 1),
    {
        current.vruntime = current.vruntime + 1;
        match self.min_vruntime() {
            Some(min) => min < current.vruntime,
            None => false,
        }
    }

    /// Whether the fair policy accepts a niceness value.
    pub open spec fn nice_is_valid(priority: isize) -> bool {
        CFS_NICE_MIN <= priority <= CFS_NICE_MAX
    }

    /// Accepts exactly the niceness range of the fair policy; the value
    /// itself is task metadata kept by the caller.
    pub fn set_priority(&mut self, _slot: usize, priority: isize) -> (r: bool)
        ensures
            *final(self) == *old(self),
            r == CfsScheduler::nice_is_valid(priority),
    {
        CFS_NICE_MIN <= priority && priority <= CFS_NICE_MAX
    }
}

} // verus!
