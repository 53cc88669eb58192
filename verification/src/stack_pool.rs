//! The per-CPU kernel stack pool. Stacks are fixed-size allocations named
//! here by identifiers drawn from a shared counter; the actual memory is
//! the executor's. A stack is held by exactly one party at a time: the
//! pool's current-stack slot, the pool's free list, or a suspended task.

use vstd::prelude::*;

verus! {

/// Size in bytes of one kernel stack.
pub const TASK_STACK_SIZE: usize = 0x40000;

/// A pool of kernel stacks for one processor.
#[derive(Debug)]
pub struct StackPool {
    /// The stack the current execution runs on, once the processor has
    /// switched off the unmanaged boot stack.
    pub curr_stack: Option<u64>,
    /// Stacks not in use, ready to be fetched.
    pub free_stacks: Vec<u64>,
}

impl StackPool {
    /// An empty pool: no current stack, nothing free.
    pub fn new() -> (r: StackPool)
        ensures
            r.curr_stack is None,
            r.free_stacks@ == Seq::<u64>::empty(),
    {
        StackPool { curr_stack: None, free_stacks: Vec::new() }
    }

    /// Fetches a free stack, or allocates a fresh one from the shared
    /// identifier counter when the free list is empty.
    pub fn fetch(&mut self, next_stack_id: &mut u64) -> (r: u64)
        requires
            *old(next_stack_id) < u64::MAX,
        ensures
            final(self).curr_stack == old(self).curr_stack,
            old(self).free_stacks@.len() > 0 ==> {
                &&& r == old(self).free_stacks@.last()
                &&& final(self).free_stacks@ == old(self).free_stacks@.drop_last()
                &&& *final(next_stack_id) == *old(next_stack_id)
            },
            old(self).free_stacks@.len() == 0 ==> {
                &&& r == *old(next_stack_id)
                &&& final(self).free_stacks@ == old(self).free_stacks@
                &&& *final(next_stack_id) == *old(next_stack_id) + 1
            },
    {
        match self.free_stacks.pop() {
            Some(stack) => stack,
            None => {
                let stack = *next_stack_id;
                *next_stack_id = *next_stack_id + 1;
                stack
            },
        }
    }

    /// Replaces the current-stack slot, handing the previous occupant back.
    pub fn swap_curr_stack(&mut self, stack: Option<u64>) -> (r: Option<u64>)
        ensures
            r == old(self).curr_stack,
            final(self).curr_stack == stack,
            final(self).free_stacks == old(self).free_stacks,
    {
        let old_stack = self.curr_stack;
        self.curr_stack = stack;
        old_stack
    }

    /// Returns a stack nobody uses any longer to the free list.
    pub fn recycle_stack(&mut self, empty_stack: u64)
        ensures
            final(self).curr_stack == old(self).curr_stack,
            final(self).free_stacks@ == old(self).free_stacks@.push(empty_stack),
    {
        self.free_stacks.push(empty_stack);
    }
}

} // verus!
