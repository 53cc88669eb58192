//! The static-priority scheduling policy: a fixed number of levels, one
//! FIFO ready queue per level, lower numeric level meaning higher priority.
//! This is the policy the two-tier runtime scheduler is built on; the
//! alternative policies live beside it in their own modules.

use vstd::prelude::*;

verus! {

/// Number of priority levels.
pub const PRIO_LEVEL_NUM: usize = 8;

/// A static-priority ready-queue set. Queue entries are task table slots.
#[derive(Debug)]
pub struct Scheduler {
    /// One FIFO queue per priority level, highest priority first.
    pub queues: Vec<Vec<usize>>,
}

impl Scheduler {
    /// Structural well-formedness: one queue per level.
    pub open spec fn wf(self) -> bool {
        self.queues@.len() == PRIO_LEVEL_NUM
    }

    /// The queue of one level, as a sequence.
    pub open spec fn level(self, l: int) -> Seq<usize> {
        self.queues@[l]@
    }

    /// Whether a slot sits in some queue of this scheduler.
    pub open spec fn contains(self, slot: usize) -> bool {
        exists|l: int| 0 <= l < PRIO_LEVEL_NUM && self.level(l).contains(slot)
    }

    /// Whether every queue is empty.
    pub open spec fn spec_is_empty(self) -> bool {
        forall|l: int| 0 <= l < PRIO_LEVEL_NUM ==> self.level(l).len() == 0
    }

    /// The first level at or after `l` whose queue is not empty, or the
    /// number of levels when all from `l` on are empty.
    pub open spec fn first_nonempty_from(self, l: int) -> int
        decreases PRIO_LEVEL_NUM - l,
    {
        if l < 0 || l >= PRIO_LEVEL_NUM {
            PRIO_LEVEL_NUM as int
        } else if self.level(l).len() > 0 {
            l
        } else {
            self.first_nonempty_from(l + 1)
        }
    }

    /// The priority the scheduler would report: the best (lowest) level
    /// holding a task, or the sentinel `PRIO_LEVEL_NUM` when idle. A queue
    /// holding work always reports less than the sentinel, so the sentinel
    /// loses every comparison against a queue with work.
    pub open spec fn spec_highest_priority(self) -> int {
        self.first_nonempty_from(0)
    }

    proof fn lemma_first_nonempty_step(self, l: int)
        requires
            0 <= l <= PRIO_LEVEL_NUM,
            forall|j: int| 0 <= j < l ==> self.level(j).len() == 0,
        ensures
            self.first_nonempty_from(0) == self.first_nonempty_from(l),
        decreases l,
    {
        if l > 0 {
            self.lemma_first_nonempty_step(l - 1);
        }
    }

    /// Facts about the reported priority: it is the sentinel exactly when
    /// the scheduler is empty, and otherwise names a level with work while
    /// all better levels are empty.
    pub proof fn lemma_highest_priority(self)
        ensures
            0 <= self.spec_highest_priority() <= PRIO_LEVEL_NUM,
            self.spec_highest_priority() == PRIO_LEVEL_NUM <==> self.spec_is_empty(),
            self.spec_highest_priority() < PRIO_LEVEL_NUM ==>
                self.level(self.spec_highest_priority()).len() > 0,
            forall|j: int| 0 <= j < self.spec_highest_priority() ==> self.level(j).len() == 0,
        decreases PRIO_LEVEL_NUM as int,
    {
        self.lemma_highest_priority_from(0);
    }

    proof fn lemma_highest_priority_from(self, l: int)
        requires
            0 <= l <= PRIO_LEVEL_NUM,
        ensures
            l <= self.first_nonempty_from(l) <= PRIO_LEVEL_NUM,
            self.first_nonempty_from(l) == PRIO_LEVEL_NUM <==>
                (forall|j: int| l <= j < PRIO_LEVEL_NUM ==> self.level(j).len() == 0),
            self.first_nonempty_from(l) < PRIO_LEVEL_NUM ==>
                self.level(self.first_nonempty_from(l)).len() > 0,
            forall|j: int| l <= j < self.first_nonempty_from(l) ==> self.level(j).len() == 0,
        decreases PRIO_LEVEL_NUM - l,
    {
        if l < PRIO_LEVEL_NUM && self.level(l).len() == 0 {
            self.lemma_highest_priority_from(l + 1);
        }
    }

    /// An empty scheduler: every level present, every queue empty.
    pub fn new() -> (r: Scheduler)
        ensures
            r.wf(),
            r.spec_is_empty(),
    {
        let mut queues: Vec<Vec<usize>> = Vec::new();
        let mut l: usize = 0;
        while l < PRIO_LEVEL_NUM
            invariant
                queues@.len() == l,
                l <= PRIO_LEVEL_NUM,
                forall|j: int| 0 <= j < l ==> queues@[j]@.len() == 0,
            decreases PRIO_LEVEL_NUM - l,
        {
            queues.push(Vec::new());
            l = l + 1;
        }
        Scheduler { queues }
    }

    /// Appends a task slot to the queue of the given level.
    pub fn add_task(&mut self, slot: usize, level: usize)
        requires
            old(self).wf(),
            level < PRIO_LEVEL_NUM,
        ensures
            final(self).wf(),
            final(self).level(level as int) == old(self).level(level as int).push(slot),
            forall|l: int| 0 <= l < PRIO_LEVEL_NUM && l != level ==>
                final(self).level(l) == old(self).level(l),
    {
        self.queues[level].push(slot);
    }

    /// The priority hint: the best level holding a task, or the sentinel
    /// `PRIO_LEVEL_NUM` when every queue is empty.
    pub fn highest_priority(&self) -> (r: usize)
        requires
            self.wf(),
        ensures
            r == self.spec_highest_priority(),
    {
        let mut l: usize = 0;
        while l < PRIO_LEVEL_NUM
            invariant
                self.wf(),
                l <= PRIO_LEVEL_NUM,
                forall|j: int| 0 <= j < l ==> self.level(j).len() == 0,
            decreases PRIO_LEVEL_NUM - l,
        {
            if self.queues[l].len() > 0 {
                proof {
                    self.lemma_first_nonempty_step(l as int);
                }
                return l;
            }
            l = l + 1;
        }
        proof {
            self.lemma_first_nonempty_step(PRIO_LEVEL_NUM as int);
        }
        PRIO_LEVEL_NUM
    }

    /// Takes the task at the head of the best nonempty level, or reports
    /// that every queue is empty. A task of lower priority is never
    /// returned while one of higher priority is queued.
    pub fn pick_next_task(&mut self) -> (r: Option<usize>)
        requires
            old(self).wf(),
        ensures
            final(self).wf(),
            old(self).spec_is_empty() ==> r is None && *final(self) == *old(self),
            !old(self).spec_is_empty() ==> {
                let best = old(self).spec_highest_priority();
                &&& r == Some(old(self).level(best)[0])
                &&& final(self).level(best) == old(self).level(best).drop_first()
                &&& forall|l: int| 0 <= l < PRIO_LEVEL_NUM && l != best ==>
                    final(self).level(l) == old(self).level(l)
            },
    {
        proof {
            self.lemma_highest_priority();
        }
        let mut l: usize = 0;
        while l < PRIO_LEVEL_NUM
            invariant
                self.wf(),
                l <= PRIO_LEVEL_NUM,
                *self == *old(self),
                forall|j: int| 0 <= j < l ==> self.level(j).len() == 0,
            decreases PRIO_LEVEL_NUM - l,
        {
            if self.queues[l].len() > 0 {
                proof {
                    self.lemma_first_nonempty_step(l as int);
                }
                let slot = self.queues[l].remove(0);
                proof {
                    assert(self.level(l as int) =~= old(self).level(l as int).drop_first());
                }
                return Some(slot);
            }
            l = l + 1;
        }
        None
    }
}

} // verus!
