//! The runtime state and its public interface: the task table, the per-CPU
//! processors, the shared global scheduler, the block queues, and every
//! operation that moves tasks between them.
//!
//! The well-formedness invariant here is the heart of the crate: it ties
//! each task's placement record to the actual queue contents, which yields
//! queue exclusivity (a task sits in at most one place) and state liveness
//! (a blocked task is findable in a block queue, a runnable task is running,
//! ready or idle).

use vstd::prelude::*;

use crate::processor::Processor;
use crate::reg_context::TaskContext;
use crate::sched_prio::{Scheduler, PRIO_LEVEL_NUM};
use crate::stack_pool::StackPool;
use crate::task::{Location, Task, TaskId, TaskKind, TaskState};

verus! {

/// Returned from `spawn` and priority changes when the policy rejects the
/// requested priority.
#[derive(Debug)]
pub struct InvalidPriorityError;

/// An ordered list of waiting tasks, drained by the wake operations.
#[derive(Debug)]
pub struct BlockQueue {
    /// Task table slots of the waiters, oldest first.
    pub waiters: Vec<usize>,
}

/// What the executor must do after a scheduling decision: resume a saved
/// register frame with the context-load routine, or poll the current
/// task's future once.
#[derive(Debug, Clone, Copy, PartialEq, Eq, Structural)]
pub enum SwitchAction {
    /// The next task is context-resident: load this frame and return into it.
    LoadContext(TaskContext),
    /// The next task is pollable: poll its future once with a waker that
    /// wakes the task on this CPU.
    Poll,
}

/// The whole task-management state: one instance serves every CPU.
#[derive(Debug)]
pub struct Runtime {
    /// All tasks ever created, indexed by slot; identities are slot + 1.
    pub tasks: Vec<Task>,
    /// Per-CPU processors, indexed by CPU identity; `None` until that CPU
    /// has run its initialisation.
    pub processors: Vec<Option<Processor>>,
    /// The shared ready queue all CPUs may draw from.
    pub global_scheduler: Scheduler,
    /// All block queues created so far, indexed by queue identity.
    pub block_queues: Vec<BlockQueue>,
    /// Counter handing out kernel stack identifiers.
    pub next_stack_id: u64,
}

/// Appending to a sequence keeps every element it had, and adds the new one.
proof fn lemma_push_contains<A>(s: Seq<A>, x: A, y: A)
    ensures
        s.contains(y) ==> s.push(x).contains(y),
        s.push(x).contains(x),
{
    if s.contains(y) {
        let i = choose|i: int| 0 <= i < s.len() && s[i] == y;
        assert(s.push(x)[i] == y);
    }
    assert(s.push(x)[s.len() as int] == x);
}

/// The view of a `Vec` never exceeds the address space: its length is a
/// `usize`.
pub(crate) proof fn lemma_vec_len_bound<A>(v: &Vec<A>)
    ensures
        v@.len() <= usize::MAX,
{
    broadcast use vstd::std_specs::vec::axiom_spec_len;

    assert(vstd::std_specs::vec::spec_vec_len(v) == v@.len());
}

/// Removing one element of a duplicate-free sequence removes exactly that
/// element and keeps the rest, still duplicate-free.
proof fn lemma_remove_props(sq: Seq<usize>, idx: int)
    requires
        0 <= idx < sq.len(),
        sq.no_duplicates(),
    ensures
        sq.remove(idx).no_duplicates(),
        forall|x: usize| #[trigger] sq.remove(idx).contains(x)
            <==> (sq.contains(x) && x != sq[idx]),
{
    let r = sq.remove(idx);
    assert forall|x: usize| #[trigger] r.contains(x)
        implies (sq.contains(x) && x != sq[idx]) by {
        let i = choose|i: int| 0 <= i < r.len() && r[i] == x;
        if i < idx {
            assert(sq[i] == x);
        } else {
            assert(sq[i + 1] == x);
        }
    }
    assert forall|x: usize| sq.contains(x) && x != sq[idx]
        implies #[trigger] r.contains(x) by {
        let i = choose|i: int| 0 <= i < sq.len() && sq[i] == x;
        if i < idx {
            assert(r[i] == x);
        } else {
            assert(i != idx);
            assert(r[i - 1] == x);
        }
    }
}

/// Removing the first element satisfying a predicate from a sequence
/// drops exactly the head of the filtered view and leaves the complement
/// untouched.
proof fn lemma_filter_remove_first(sq: Seq<usize>, pred: spec_fn(usize) -> bool, idx: int)
    requires
        0 <= idx < sq.len(),
        pred(sq[idx]),
        forall|j: int| 0 <= j < idx ==> !pred(sq[j]),
    ensures
        sq.filter(pred).len() > 0,
        sq.filter(pred)[0] == sq[idx],
        sq.remove(idx).filter(pred) == sq.filter(pred).drop_first(),
        sq.remove(idx).filter(|x: usize| !pred(x)) == sq.filter(|x: usize| !pred(x)),
    decreases sq.len(),
{
    broadcast use vstd::seq_lib::group_seq_properties;

    let npred = |x: usize| !pred(x);
    let pre = sq.subrange(0, idx);
    let at = sq.subrange(idx, idx + 1);
    let post = sq.subrange(idx + 1, sq.len() as int);
    assert(sq =~= (pre + at) + post);
    assert(sq.remove(idx) =~= pre + post);
    Seq::filter_distributes_over_add(pre + at, post, pred);
    Seq::filter_distributes_over_add(pre, at, pred);
    Seq::filter_distributes_over_add(pre, post, pred);
    Seq::filter_distributes_over_add(pre + at, post, npred);
    Seq::filter_distributes_over_add(pre, at, npred);
    Seq::filter_distributes_over_add(pre, post, npred);
    pre.lemma_all_neg_filter_empty(pred);
    assert(at.filter(pred) =~= seq![sq[idx]]) by {
        reveal(Seq::filter);
        assert(at.len() == 1);
        assert(at.drop_last() =~= Seq::<usize>::empty());
        assert(at.drop_last().filter(pred) =~= Seq::<usize>::empty());
        assert(at.last() == sq[idx]);
    }
    assert(at.filter(npred) =~= Seq::<usize>::empty()) by {
        reveal(Seq::filter);
        assert(at.drop_last() =~= Seq::<usize>::empty());
        assert(at.drop_last().filter(npred) =~= Seq::<usize>::empty());
    }
    assert(sq.filter(pred) =~= seq![sq[idx]] + post.filter(pred));
    assert(sq.remove(idx).filter(pred) =~= post.filter(pred));
    assert(sq.filter(pred).drop_first() =~= post.filter(pred));
    assert(sq.remove(idx).filter(npred) =~= pre.filter(npred) + post.filter(npred));
    assert(sq.filter(npred) =~= pre.filter(npred) + post.filter(npred));
}

/// Dropping the head of a sequence keeps it duplicate-free, keeps every
/// remaining element an element of the original, and (when duplicate-free)
/// no longer holds the old head.
proof fn lemma_drop_first_props(s: Seq<usize>)
    requires
        s.len() > 0,
    ensures
        s.no_duplicates() ==> s.drop_first().no_duplicates(),
        forall|x: usize| #[trigger] s.drop_first().contains(x) ==> s.contains(x),
        s.no_duplicates() ==> !s.drop_first().contains(s[0]),
{
    assert forall|x: usize| #[trigger] s.drop_first().contains(x) implies s.contains(x) by {
        let i = choose|i: int| 0 <= i < s.drop_first().len() && s.drop_first()[i] == x;
        assert(s[i + 1] == x);
    }
    if s.no_duplicates() {
        if s.drop_first().contains(s[0]) {
            let i = choose|i: int| 0 <= i < s.drop_first().len() && s.drop_first()[i] == s[0];
            assert(s[i + 1] == s[0]);
        }
    }
}

impl Runtime {
    /// Whether a slot names a task.
    pub open spec fn valid_slot(self, s: usize) -> bool {
        (s as int) < self.tasks@.len()
    }

    /// The task in a slot.
    pub open spec fn task(self, s: usize) -> Task {
        self.tasks@[s as int]
    }

    /// Whether a CPU has an initialised processor.
    pub open spec fn proc_ok(self, c: usize) -> bool {
        (c as int) < self.processors@.len() && self.processors@[c as int] is Some
    }

    /// The processor of a CPU.
    pub open spec fn proc(self, c: usize) -> Processor {
        self.processors@[c as int]->0
    }

    /// One level of a CPU's local ready queues.
    pub open spec fn local_level(self, c: usize, l: int) -> Seq<usize> {
        self.proc(c).local_scheduler.level(l)
    }

    /// One level of the global ready queues.
    pub open spec fn global_level(self, l: int) -> Seq<usize> {
        self.global_scheduler.level(l)
    }

    /// Whether a block queue identity is in use.
    pub open spec fn valid_queue(self, q: usize) -> bool {
        (q as int) < self.block_queues@.len()
    }

    /// The waiters of one block queue.
    pub open spec fn bq(self, q: int) -> Seq<usize> {
        self.block_queues@[q].waiters@
    }

    /// The slot of the task currently executing on a CPU.
    pub open spec fn current_of(self, c: usize) -> usize {
        self.proc(c).current_task
    }

    /// Placement consistency for one task: what its location record claims
    /// is true of the processors and queues.
    pub open spec fn task_location_wf(self, s: usize) -> bool {
        let t = self.task(s);
        match t.location {
            Location::Running(c) => {
                &&& self.proc_ok(c)
                &&& self.proc(c).current_task == s
                &&& (t.state is Runnable || t.state is Blocking || t.state is Exited)
                &&& (t.state is Blocking ==> t.is_original)
                &&& (t.state is Exited ==> !t.is_idle)
                &&& (t.is_idle ==> self.proc(c).idle_task == s)
            },
            Location::Parking(c, q) => {
                &&& self.proc_ok(c)
                &&& self.proc(c).current_task == s
                &&& self.valid_queue(q)
                &&& self.bq(q as int).contains(s)
                &&& t.state is Blocking
                &&& !t.is_idle
            },
            Location::ReadyLocal(c) => {
                &&& self.proc_ok(c)
                &&& self.local_level(c, t.priority as int).contains(s)
                &&& t.state is Runnable
                &&& !t.is_idle
            },
            Location::ReadyGlobal => {
                &&& self.global_level(t.priority as int).contains(s)
                &&& t.state is Runnable
                &&& !t.is_idle
            },
            Location::Parked(q) => {
                &&& self.valid_queue(q)
                &&& self.bq(q as int).contains(s)
                &&& t.state is Blocked
                &&& !t.is_idle
            },
            Location::IdleSlot(c) => {
                &&& self.proc_ok(c)
                &&& self.proc(c).idle_task == s
                &&& t.is_idle
                &&& t.state is Runnable
                &&& self.proc(c).current_task != s
            },
            Location::Detached => {
                t.state is Exited || (t.is_original && t.state is Blocked)
            },
        }
    }

    /// Global facts about every task: identities follow the slot order (so
    /// they are unique and never reused), priorities are in range, placement
    /// is consistent, and a context-resident task owns the stack its frame
    /// lives in (except the boot task, whose stack is not managed).
    pub open spec fn tasks_wf(self) -> bool {
        forall|s: usize| self.valid_slot(s) ==> {
            let t = #[trigger] self.task(s);
            &&& t.id.0 == s as int + 1
            &&& t.priority < PRIO_LEVEL_NUM
            &&& self.task_location_wf(s)
            &&& (t.saved_ctx is Some ==> (t.owned_stack is Some || t.is_original))
            &&& !(t.is_idle && t.is_original)
        }
    }

    /// Facts about one initialised processor: its recorded identity is its
    /// index, its local scheduler is well formed, no switch is in progress
    /// between operations, and its current, idle and boot tasks are
    /// consistent with the task table.
    pub open spec fn proc_wf(self, c: usize) -> bool {
        let p = self.proc(c);
        &&& p.id == c
        &&& p.local_scheduler.wf()
        &&& p.switch_guard is None
        &&& self.valid_slot(p.current_task)
        &&& (self.task(p.current_task).location == Location::Running(c)
            || (self.task(p.current_task).location matches Location::Parking(cc, _) && cc == c))
        &&& self.valid_slot(p.idle_task)
        &&& self.task(p.idle_task).is_idle
        &&& (self.task(p.idle_task).location == Location::IdleSlot(c)
            || self.task(p.idle_task).location == Location::Running(c))
        &&& self.valid_slot(p.original_task)
        &&& self.task(p.original_task).is_original
    }

    /// All processors are well formed.
    pub open spec fn procs_wf(self) -> bool {
        forall|c: usize| #[trigger] self.proc_ok(c) ==> self.proc_wf(c)
    }

    /// Every entry of every local ready queue points back at a task whose
    /// placement record names exactly that queue and whose priority is the
    /// level it sits in.
    pub open spec fn local_queues_wf(self) -> bool {
        forall|c: usize, l: int, i: int|
            self.proc_ok(c) && 0 <= l < PRIO_LEVEL_NUM && 0 <= i < self.local_level(c, l).len()
            ==> {
                let s = #[trigger] self.local_level(c, l)[i];
                &&& self.valid_slot(s)
                &&& self.task(s).location == Location::ReadyLocal(c)
                &&& self.task(s).priority == l
            }
    }

    /// The same for the global ready queues.
    pub open spec fn global_queue_wf(self) -> bool {
        forall|l: int, i: int|
            0 <= l < PRIO_LEVEL_NUM && 0 <= i < self.global_level(l).len()
            ==> {
                let s = #[trigger] self.global_level(l)[i];
                &&& self.valid_slot(s)
                &&& self.task(s).location == Location::ReadyGlobal
                &&& self.task(s).priority == l
            }
    }

    /// Every waiter in a block queue is a task parked there, or one still
    /// in its blocking window on some CPU.
    pub open spec fn block_queues_wf(self) -> bool {
        forall|q: int, i: int|
            0 <= q < self.block_queues@.len() && 0 <= i < self.bq(q).len()
            ==> {
                let s = #[trigger] self.bq(q)[i];
                &&& self.valid_slot(s)
                &&& (self.task(s).location == Location::Parked(q as usize)
                    || (self.task(s).location matches Location::Parking(_, qq) && qq == q))
            }
    }

    /// No queue holds the same task twice.
    pub open spec fn queues_no_duplicates(self) -> bool {
        &&& forall|c: usize, l: int|
            self.proc_ok(c) && 0 <= l < PRIO_LEVEL_NUM
                ==> (#[trigger] self.local_level(c, l)).no_duplicates()
        &&& forall|l: int| 0 <= l < PRIO_LEVEL_NUM
                ==> (#[trigger] self.global_level(l)).no_duplicates()
        &&& forall|q: int| 0 <= q < self.block_queues@.len()
                ==> (#[trigger] self.bq(q)).no_duplicates()
    }

    /// The well-formedness invariant: established by initialisation and
    /// preserved by every operation.
    pub open spec fn wf(self) -> bool {
        &&& self.tasks_wf()
        &&& self.procs_wf()
        &&& self.local_queues_wf()
        &&& self.global_queue_wf()
        &&& self.block_queues_wf()
        &&& self.queues_no_duplicates()
        &&& self.global_scheduler.wf()
    }
}

/// Initialises the runtime on the main processor. Called once, before any
/// secondary processor comes up: the returned runtime is what the secondary
/// initialisation waits for, which encodes the boot handshake. The boot
/// execution itself becomes the synthetic original task, so the first
/// switch has a well-defined origin; a fresh idle task stands ready for
/// the moment every queue is empty.
pub fn init_main_processor(cpu_id: usize, cpu_num: usize) -> (rt: Runtime)
    requires
        cpu_id < cpu_num,
    ensures
        rt.wf(),
        rt.processors@.len() == cpu_num,
        forall|c: usize| rt.proc_ok(c) <==> c == cpu_id && (c as int) < cpu_num,
        forall|c: usize| (c as int) < cpu_num && c != cpu_id ==>
            #[trigger] rt.processors@[c as int] is None,
        rt.tasks@.len() == 2,
        rt.task(rt.current_of(cpu_id)).is_original,
        rt.task(rt.current_of(cpu_id)).state is Runnable,
        rt.task(rt.current_of(cpu_id)).location == Location::Running(cpu_id),
        rt.task(rt.current_of(cpu_id)).saved_ctx is None,
        rt.task(rt.current_of(cpu_id)).owned_stack is None,
        rt.task(rt.proc(cpu_id).idle_task).saved_ctx is None,
        rt.proc(cpu_id).stack_pool.curr_stack is None,
        rt.proc(cpu_id).stack_pool.free_stacks@.len() == 0,
        rt.proc(cpu_id).local_scheduler.spec_is_empty(),
        rt.global_scheduler.spec_is_empty(),
        rt.next_stack_id == 0,
        rt.block_queues@.len() == 0,
{
    let mut tasks: Vec<Task> = Vec::new();
    let idle = Task::new(TaskId(1), TaskKind::Coroutine, true, false, false, 0,
        Location::IdleSlot(cpu_id));
    tasks.push(idle);
    let original = Task::new(TaskId(2), TaskKind::Thread, false, false, true, 0,
        Location::Running(cpu_id));
    tasks.push(original);

    let mut processors: Vec<Option<Processor>> = Vec::new();
    let mut c: usize = 0;
    while c < cpu_num
        invariant
            processors@.len() == c,
            c <= cpu_num,
            forall|j: int| 0 <= j < c ==> processors@[j] is None,
        decreases cpu_num - c,
    {
        processors.push(None);
        c = c + 1;
    }

    let proc = Processor {
        id: cpu_id,
        local_scheduler: Scheduler::new(),
        current_task: 1,
        idle_task: 0,
        original_task: 1,
        stack_pool: StackPool::new(),
        switch_guard: None,
    };
    processors[cpu_id] = Some(proc);

    let rt = Runtime {
        tasks,
        processors,
        global_scheduler: Scheduler::new(),
        block_queues: Vec::new(),
        next_stack_id: 0,
    };
    rt
}

/// Initialises a secondary processor. Requiring the runtime that only the
/// main initialisation produces is the cross-CPU handshake: a secondary
/// CPU can only come up after the main one has finished. The CPU gets its
/// own idle and original tasks and an empty local scheduler.
pub fn init_secondary_processor(rt: &mut Runtime, cpu_id: usize)
    requires
        old(rt).wf(),
        (cpu_id as int) < old(rt).processors@.len(),
        old(rt).processors@[cpu_id as int] is None,
        old(rt).tasks@.len() + 2 <= usize::MAX,
    ensures
        final(rt).wf(),
        final(rt).proc_ok(cpu_id),
        final(rt).tasks@.len() == old(rt).tasks@.len() + 2,
        forall|s: usize| old(rt).valid_slot(s) ==> final(rt).task(s) == old(rt).task(s),
        forall|c: usize| old(rt).proc_ok(c) ==>
            final(rt).proc_ok(c) && final(rt).proc(c) == old(rt).proc(c),
        final(rt).task(final(rt).current_of(cpu_id)).is_original,
        final(rt).task(final(rt).current_of(cpu_id)).state is Runnable,
        final(rt).task(final(rt).current_of(cpu_id)).location == Location::Running(cpu_id),
        final(rt).task(final(rt).current_of(cpu_id)).saved_ctx is None,
        final(rt).task(final(rt).current_of(cpu_id)).owned_stack is None,
        final(rt).task(final(rt).proc(cpu_id).idle_task).saved_ctx is None,
        final(rt).proc(cpu_id).stack_pool.curr_stack is None,
        final(rt).proc(cpu_id).stack_pool.free_stacks@.len() == 0,
        final(rt).proc(cpu_id).local_scheduler.spec_is_empty(),
        final(rt).next_stack_id == old(rt).next_stack_id,
        final(rt).block_queues@.len() == old(rt).block_queues@.len(),
        forall|q: int| 0 <= q < old(rt).block_queues@.len() ==> final(rt).bq(q) == old(rt).bq(q),
        final(rt).global_scheduler == old(rt).global_scheduler,
{
    let idle_slot = rt.tasks.len();
    let idle = Task::new(TaskId((idle_slot as u64) + 1), TaskKind::Coroutine, true, false, false,
        0, Location::IdleSlot(cpu_id));
    rt.tasks.push(idle);
    let orig_slot = rt.tasks.len();
    let original = Task::new(TaskId((orig_slot as u64) + 1), TaskKind::Thread, false, false, true,
        0, Location::Running(cpu_id));
    rt.tasks.push(original);

    let proc = Processor {
        id: cpu_id,
        local_scheduler: Scheduler::new(),
        current_task: orig_slot,
        idle_task: idle_slot,
        original_task: orig_slot,
        stack_pool: StackPool::new(),
        switch_guard: None,
    };
    rt.processors[cpu_id] = Some(proc);
    proof {
        let o = *old(rt);
        let n = *rt;
        assert forall|c: usize| o.proc_ok(c) implies
            n.proc_ok(c) && n.proc(c) == o.proc(c) by {}
        assert forall|s: usize| o.valid_slot(s) implies n.task(s) == o.task(s) by {}
        assert forall|s: usize| n.valid_slot(s) implies {
            let t = #[trigger] n.task(s);
            &&& t.id.0 == s as int + 1
            &&& t.priority < PRIO_LEVEL_NUM
            &&& n.task_location_wf(s)
            &&& (t.saved_ctx is Some ==> (t.owned_stack is Some || t.is_original))
            &&& !(t.is_idle && t.is_original)
        } by {
            if (s as int) < o.tasks@.len() {
                assert(o.task(s) == n.task(s));
                assert(o.task_location_wf(s));
            }
        }
        assert(n.tasks_wf());
        assert forall|c: usize| #[trigger] n.proc_ok(c) implies n.proc_wf(c) by {
            if c != cpu_id {
                assert(o.proc_ok(c));
                assert(o.proc_wf(c));
            }
        }
        assert forall|c: usize, l: int, i: int|
            n.proc_ok(c) && 0 <= l < PRIO_LEVEL_NUM && 0 <= i < n.local_level(c, l).len()
            implies {
                let s = #[trigger] n.local_level(c, l)[i];
                &&& n.valid_slot(s)
                &&& n.task(s).location == Location::ReadyLocal(c)
                &&& n.task(s).priority == l
            } by {
            assert(c != cpu_id);
            assert(o.proc_ok(c));
            assert(o.local_level(c, l)[i] == n.local_level(c, l)[i]);
        }
        assert forall|c: usize, l: int|
            n.proc_ok(c) && 0 <= l < PRIO_LEVEL_NUM
            implies (#[trigger] n.local_level(c, l)).no_duplicates() by {
            if c != cpu_id {
                assert(o.proc_ok(c));
                assert(o.local_level(c, l).no_duplicates());
            } else {
                assert(n.local_level(c, l).len() == 0);
            }
        }
        assert forall|l: int, i: int|
            0 <= l < PRIO_LEVEL_NUM && 0 <= i < n.global_level(l).len()
            implies {
                let s = #[trigger] n.global_level(l)[i];
                &&& n.valid_slot(s)
                &&& n.task(s).location == Location::ReadyGlobal
                &&& n.task(s).priority == l
            } by {
            assert(o.global_level(l)[i] == n.global_level(l)[i]);
        }
        assert forall|q: int, i: int|
            0 <= q < n.block_queues@.len() && 0 <= i < n.bq(q).len()
            implies {
                let s = #[trigger] n.bq(q)[i];
                &&& n.valid_slot(s)
                &&& (n.task(s).location == Location::Parked(q as usize)
                    || (n.task(s).location matches Location::Parking(_, qq) && qq == q))
            } by {
            assert(o.bq(q)[i] == n.bq(q)[i]);
        }
        assert forall|l: int| 0 <= l < PRIO_LEVEL_NUM
            implies (#[trigger] n.global_level(l)).no_duplicates() by {
            assert(o.global_level(l).no_duplicates());
        }
        assert forall|q: int| 0 <= q < n.block_queues@.len()
            implies (#[trigger] n.bq(q)).no_duplicates() by {
            assert(o.bq(q).no_duplicates());
        }
        assert(n.wf());
    }
}

impl Runtime {
    /// Creates a task record and places it in a ready queue: the local
    /// queue of the calling CPU, or the shared global queue. The new task
    /// is `Runnable` with nothing saved; its identity is one past the
    /// previous task's, so identities are unique for the whole run.
    fn spawn_task(&mut self, cpu: usize, kind: TaskKind, priority: usize, to_global: bool,
        is_init: bool) -> (slot: usize)
        requires
            old(self).wf(),
            old(self).proc_ok(cpu),
            priority < PRIO_LEVEL_NUM,
            old(self).tasks@.len() < usize::MAX,
        ensures
            final(self).wf(),
            slot as int == old(self).tasks@.len(),
            final(self).tasks@.len() == old(self).tasks@.len() + 1,
            forall|s: usize| old(self).valid_slot(s) ==> final(self).task(s) == old(self).task(s),
            final(self).task(slot) == (Task {
                id: TaskId((slot + 1) as u64),
                is_idle: false,
                is_init,
                is_original: false,
                kind,
                state: TaskState::Runnable,
                exit_code: 0,
                priority,
                preempt_disable_count: 0,
                saved_ctx: None::<TaskContext>,
                owned_stack: None::<u64>,
                location: if to_global { Location::ReadyGlobal } else { Location::ReadyLocal(cpu) },
            }),
            to_global ==> {
                &&& final(self).global_level(priority as int)
                    == old(self).global_level(priority as int).push(slot)
                &&& forall|l: int| 0 <= l < PRIO_LEVEL_NUM && l != priority ==>
                    final(self).global_level(l) == old(self).global_level(l)
                &&& forall|c: usize| old(self).proc_ok(c) ==>
                    final(self).proc(c) == old(self).proc(c)
            },
            !to_global ==> {
                &&& final(self).local_level(cpu, priority as int)
                    == old(self).local_level(cpu, priority as int).push(slot)
                &&& forall|l: int| 0 <= l < PRIO_LEVEL_NUM && l != priority ==>
                    final(self).local_level(cpu, l) == old(self).local_level(cpu, l)
                &&& forall|c: usize| old(self).proc_ok(c) && c != cpu ==>
                    final(self).proc(c) == old(self).proc(c)
                &&& (forall|c: usize| (c as int) < old(self).processors@.len() && c != cpu ==>
                    #[trigger] final(self).processors@[c as int]
                        == old(self).processors@[c as int])
                &&& final(self).global_scheduler == old(self).global_scheduler
                &&& final(self).current_of(cpu) == old(self).current_of(cpu)
                &&& final(self).proc(cpu).idle_task == old(self).proc(cpu).idle_task
            },
            forall|c: usize| old(self).proc_ok(c) ==>
                final(self).proc_ok(c) && final(self).current_of(c) == old(self).current_of(c),
            final(self).processors@.len() == old(self).processors@.len(),
            forall|q: int| 0 <= q < old(self).block_queues@.len() ==>
                final(self).bq(q) == old(self).bq(q),
            final(self).block_queues@.len() == old(self).block_queues@.len(),
            final(self).next_stack_id == old(self).next_stack_id,
    {
        let slot = self.tasks.len();
        let location = if to_global { Location::ReadyGlobal } else { Location::ReadyLocal(cpu) };
        let task = Task::new(TaskId((slot as u64) + 1), kind, false, is_init, false, priority,
            location);
        self.tasks.push(task);
        if to_global {
            self.global_scheduler.add_task(slot, priority);
        } else {
            let proc_opt = self.processors[cpu].take();
            if let Some(mut p) = proc_opt {
                p.local_scheduler.add_task(slot, priority);
                self.processors[cpu] = Some(p);
            }
        }
        proof {
            self.lemma_spawn_wf(*old(self), slot, cpu, priority, to_global);
        }
        slot
    }

    /// The well-formedness bookkeeping for `spawn_task`: a fresh slot was
    /// appended and pushed onto exactly one ready queue.
    proof fn lemma_spawn_wf(&self, o: Runtime, slot: usize, cpu: usize, priority: usize,
        to_global: bool)
        requires
            o.wf(),
            o.proc_ok(cpu),
            priority < PRIO_LEVEL_NUM,
            slot as int == o.tasks@.len(),
            self.tasks@.len() == o.tasks@.len() + 1,
            forall|s: usize| o.valid_slot(s) ==> self.task(s) == o.task(s),
            self.task(slot).id.0 == slot as int + 1,
            self.task(slot).priority == priority,
            !self.task(slot).is_idle,
            self.task(slot).state is Runnable,
            self.task(slot).saved_ctx is None,
            self.task(slot).owned_stack is None,
            self.task(slot).location ==
                (if to_global { Location::ReadyGlobal } else { Location::ReadyLocal(cpu) }),
            self.processors@.len() == o.processors@.len(),
            self.block_queues@ == o.block_queues@,
            to_global ==> {
                &&& forall|c: usize| (c as int) < o.processors@.len() ==>
                    self.processors@[c as int] == o.processors@[c as int]
                &&& self.global_level(priority as int)
                    == o.global_level(priority as int).push(slot)
                &&& forall|l: int| 0 <= l < PRIO_LEVEL_NUM && l != priority ==>
                    self.global_level(l) == o.global_level(l)
                &&& self.global_scheduler.wf()
            },
            !to_global ==> {
                &&& forall|c: usize| (c as int) < o.processors@.len() && c != cpu ==>
                    self.processors@[c as int] == o.processors@[c as int]
                &&& self.proc_ok(cpu)
                &&& self.proc(cpu) == (Processor {
                    local_scheduler: self.proc(cpu).local_scheduler,
                    ..o.proc(cpu)
                })
                &&& self.proc(cpu).local_scheduler.wf()
                &&& self.local_level(cpu, priority as int)
                    == o.local_level(cpu, priority as int).push(slot)
                &&& forall|l: int| 0 <= l < PRIO_LEVEL_NUM && l != priority ==>
                    self.local_level(cpu, l) == o.local_level(cpu, l)
                &&& self.global_scheduler == o.global_scheduler
            },
        ensures
            self.wf(),
    {
        let n = *self;
        assert forall|s: usize| n.valid_slot(s) implies {
            let t = #[trigger] n.task(s);
            &&& t.id.0 == s as int + 1
            &&& t.priority < PRIO_LEVEL_NUM
            &&& n.task_location_wf(s)
            &&& (t.saved_ctx is Some ==> (t.owned_stack is Some || t.is_original))
            &&& !(t.is_idle && t.is_original)
        } by {
            if (s as int) < o.tasks@.len() {
                assert(o.task(s) == n.task(s));
                assert(o.task_location_wf(s));
                match o.task(s).location {
                    Location::ReadyLocal(c) => {
                        let l = o.task(s).priority as int;
                        if !to_global && c == cpu && l == priority {
                            lemma_push_contains(o.local_level(c, l), slot, s);
                        } else {
                            assert(n.local_level(c, l) == o.local_level(c, l));
                        }
                    },
                    Location::ReadyGlobal => {
                        let l = o.task(s).priority as int;
                        if to_global && l == priority {
                            lemma_push_contains(o.global_level(l), slot, s);
                        } else {
                            assert(n.global_level(l) == o.global_level(l));
                        }
                    },
                    Location::Parking(c, q) => {
                        assert(n.bq(q as int) == o.bq(q as int));
                    },
                    Location::Parked(q) => {
                        assert(n.bq(q as int) == o.bq(q as int));
                    },
                    _ => {},
                }
            } else {
                assert(s == slot);
                if to_global {
                    lemma_push_contains(o.global_level(priority as int), slot, slot);
                } else {
                    lemma_push_contains(o.local_level(cpu, priority as int), slot, slot);
                }
            }
        }
        assert(n.tasks_wf());
        assert forall|c: usize| #[trigger] n.proc_ok(c) implies n.proc_wf(c) by {
            assert(o.proc_ok(c));
            assert(o.proc_wf(c));
        }
        assert forall|c: usize, l: int, i: int|
            n.proc_ok(c) && 0 <= l < PRIO_LEVEL_NUM && 0 <= i < n.local_level(c, l).len()
            implies {
                let s = #[trigger] n.local_level(c, l)[i];
                &&& n.valid_slot(s)
                &&& n.task(s).location == Location::ReadyLocal(c)
                &&& n.task(s).priority == l
            } by {
            assert(o.proc_ok(c));
            if !to_global && c == cpu && l == priority && i == n.local_level(c, l).len() - 1 {
                assert(n.local_level(c, l)[i] == slot);
            } else {
                assert(n.local_level(c, l)[i] == o.local_level(c, l)[i]);
            }
        }
        assert forall|l: int, i: int|
            0 <= l < PRIO_LEVEL_NUM && 0 <= i < n.global_level(l).len()
            implies {
                let s = #[trigger] n.global_level(l)[i];
                &&& n.valid_slot(s)
                &&& n.task(s).location == Location::ReadyGlobal
                &&& n.task(s).priority == l
            } by {
            if to_global && l == priority && i == n.global_level(l).len() - 1 {
                assert(n.global_level(l)[i] == slot);
            } else {
                assert(n.global_level(l)[i] == o.global_level(l)[i]);
            }
        }
        assert forall|q: int, i: int|
            0 <= q < n.block_queues@.len() && 0 <= i < n.bq(q).len()
            implies {
                let s = #[trigger] n.bq(q)[i];
                &&& n.valid_slot(s)
                &&& (n.task(s).location == Location::Parked(q as usize)
                    || (n.task(s).location matches Location::Parking(_, qq) && qq == q))
            } by {
            assert(o.bq(q)[i] == n.bq(q)[i]);
        }
        assert forall|c: usize, l: int|
            n.proc_ok(c) && 0 <= l < PRIO_LEVEL_NUM
            implies (#[trigger] n.local_level(c, l)).no_duplicates() by {
            assert(o.proc_ok(c));
            assert(o.local_level(c, l).no_duplicates());
            if !to_global && c == cpu && l == priority {
                assert forall|i: int, j: int|
                    0 <= i < j < n.local_level(c, l).len()
                    implies n.local_level(c, l)[i] != n.local_level(c, l)[j] by {
                    if j == n.local_level(c, l).len() - 1 {
                        assert(n.local_level(c, l)[j] == slot);
                        assert(o.local_level(c, l)[i] == n.local_level(c, l)[i]);
                        assert(o.valid_slot(o.local_level(c, l)[i]));
                    }
                }
            }
        }
        assert forall|l: int| 0 <= l < PRIO_LEVEL_NUM
            implies (#[trigger] n.global_level(l)).no_duplicates() by {
            assert(o.global_level(l).no_duplicates());
            if to_global && l == priority {
                assert forall|i: int, j: int|
                    0 <= i < j < n.global_level(l).len()
                    implies n.global_level(l)[i] != n.global_level(l)[j] by {
                    if j == n.global_level(l).len() - 1 {
                        assert(n.global_level(l)[j] == slot);
                        assert(o.global_level(l)[i] == n.global_level(l)[i]);
                        assert(o.valid_slot(o.global_level(l)[i]));
                    }
                }
            }
        }
        assert forall|q: int| 0 <= q < n.block_queues@.len()
            implies (#[trigger] n.bq(q)).no_duplicates() by {
            assert(o.bq(q).no_duplicates());
        }
        assert(n.wf());
    }

    /// Well-formedness is kept when a single task record changes in place:
    /// identity, role bits and placement stay, and a priority change is
    /// only allowed while the task is not sitting in a ready queue.
    proof fn lemma_update_task_wf(&self, o: Runtime, s: usize, pool_cpu: usize)
        requires
            o.wf(),
            o.valid_slot(s),
            self.tasks@ == o.tasks@.update(s as int, self.tasks@[s as int]),
            o.proc_ok(pool_cpu),
            self.processors@.len() == o.processors@.len(),
            forall|c: usize| (c as int) < o.processors@.len() && c != pool_cpu ==>
                #[trigger] self.processors@[c as int] == o.processors@[c as int],
            self.proc_ok(pool_cpu),
            self.proc(pool_cpu) == (Processor {
                stack_pool: self.proc(pool_cpu).stack_pool,
                ..o.proc(pool_cpu)
            }),
            self.global_scheduler == o.global_scheduler,
            self.block_queues@ == o.block_queues@,
            self.task(s).id == o.task(s).id,
            self.task(s).is_idle == o.task(s).is_idle,
            self.task(s).is_original == o.task(s).is_original,
            self.task(s).location == o.task(s).location,
            self.task(s).priority < PRIO_LEVEL_NUM,
            (o.task(s).location is ReadyLocal || o.task(s).location is ReadyGlobal) ==>
                self.task(s).priority == o.task(s).priority,
            self.task_location_wf(s),
            self.task(s).saved_ctx is Some ==>
                (self.task(s).owned_stack is Some || self.task(s).is_original),
        ensures
            self.wf(),
    {
        let n = *self;
        assert forall|x: usize| n.valid_slot(x) implies {
            let t = #[trigger] n.task(x);
            &&& t.id.0 == x as int + 1
            &&& t.priority < PRIO_LEVEL_NUM
            &&& n.task_location_wf(x)
            &&& (t.saved_ctx is Some ==> (t.owned_stack is Some || t.is_original))
            &&& !(t.is_idle && t.is_original)
        } by {
            assert(!(o.task(x).is_idle && o.task(x).is_original));
            if x != s {
                assert(n.task(x) == o.task(x));
                assert(o.task_location_wf(x));
            } else {
                assert(o.task(s).id.0 == s as int + 1);
            }
        }
        assert(n.tasks_wf());
        assert forall|c: usize| #[trigger] n.proc_ok(c) implies n.proc_wf(c) by {
            assert(o.proc_ok(c));
            assert(o.proc_wf(c));
            assert(n.task(o.proc(c).current_task).location
                == o.task(o.proc(c).current_task).location);
            assert(n.task(o.proc(c).idle_task).is_idle == o.task(o.proc(c).idle_task).is_idle);
        }
        assert forall|c: usize, l: int, i: int|
            n.proc_ok(c) && 0 <= l < PRIO_LEVEL_NUM && 0 <= i < n.local_level(c, l).len()
            implies {
                let x = #[trigger] n.local_level(c, l)[i];
                &&& n.valid_slot(x)
                &&& n.task(x).location == Location::ReadyLocal(c)
                &&& n.task(x).priority == l
            } by {
            assert(o.proc_ok(c));
            assert(o.local_level(c, l)[i] == n.local_level(c, l)[i]);
        }
        assert forall|l: int, i: int|
            0 <= l < PRIO_LEVEL_NUM && 0 <= i < n.global_level(l).len()
            implies {
                let x = #[trigger] n.global_level(l)[i];
                &&& n.valid_slot(x)
                &&& n.task(x).location == Location::ReadyGlobal
                &&& n.task(x).priority == l
            } by {
            assert(o.global_level(l)[i] == n.global_level(l)[i]);
        }
        assert forall|q: int, i: int|
            0 <= q < n.block_queues@.len() && 0 <= i < n.bq(q).len()
            implies {
                let x = #[trigger] n.bq(q)[i];
                &&& n.valid_slot(x)
                &&& (n.task(x).location == Location::Parked(q as usize)
                    || (n.task(x).location matches Location::Parking(_, qq) && qq == q))
            } by {
            assert(o.bq(q)[i] == n.bq(q)[i]);
        }
        assert forall|c: usize, l: int|
            n.proc_ok(c) && 0 <= l < PRIO_LEVEL_NUM
            implies (#[trigger] n.local_level(c, l)).no_duplicates() by {
            assert(o.proc_ok(c));
            assert(o.local_level(c, l).no_duplicates());
        }
        assert forall|l: int| 0 <= l < PRIO_LEVEL_NUM
            implies (#[trigger] n.global_level(l)).no_duplicates() by {
            assert(o.global_level(l).no_duplicates());
        }
        assert forall|q: int| 0 <= q < n.block_queues@.len()
            implies (#[trigger] n.bq(q)).no_duplicates() by {
            assert(o.bq(q).no_duplicates());
        }
        assert(n.wf());
    }
}

/// Spawns a thread task into the calling CPU's local queue at the default
/// priority, returning its slot in the task table.
pub fn spawn_to_local(rt: &mut Runtime, cpu: usize) -> (slot: usize)
    requires
        old(rt).wf(),
        old(rt).proc_ok(cpu),
        old(rt).tasks@.len() < usize::MAX,
    ensures
        final(rt).wf(),
        slot as int == old(rt).tasks@.len(),
        final(rt).tasks@.len() == old(rt).tasks@.len() + 1,
        forall|s: usize| old(rt).valid_slot(s) ==> final(rt).task(s) == old(rt).task(s),
        final(rt).task(slot).kind is Thread,
        final(rt).task(slot).state is Runnable,
        final(rt).task(slot).location == Location::ReadyLocal(cpu),
        final(rt).task(slot).priority == 0,
        final(rt).task(slot).id.0 == slot as int + 1,
        final(rt).local_level(cpu, 0) == old(rt).local_level(cpu, 0).push(slot),
        forall|l: int| 0 < l < PRIO_LEVEL_NUM ==>
            #[trigger] final(rt).local_level(cpu, l) == old(rt).local_level(cpu, l),
        forall|c: usize| old(rt).proc_ok(c) && c != cpu ==>
            #[trigger] final(rt).proc(c) == old(rt).proc(c),
        final(rt).global_scheduler == old(rt).global_scheduler,
        forall|q: int| 0 <= q < old(rt).block_queues@.len() ==>
            #[trigger] final(rt).bq(q) == old(rt).bq(q),
        final(rt).block_queues@.len() == old(rt).block_queues@.len(),
        forall|c: usize| old(rt).proc_ok(c) ==>
            final(rt).proc_ok(c) && final(rt).current_of(c) == old(rt).current_of(c),
{
    rt.spawn_task(cpu, TaskKind::Thread, 0, false, false)
}

/// Spawns a coroutine task into the calling CPU's local queue at the
/// default priority.
pub fn spawn_to_local_async(rt: &mut Runtime, cpu: usize) -> (slot: usize)
    requires
        old(rt).wf(),
        old(rt).proc_ok(cpu),
        old(rt).tasks@.len() < usize::MAX,
    ensures
        final(rt).wf(),
        slot as int == old(rt).tasks@.len(),
        final(rt).tasks@.len() == old(rt).tasks@.len() + 1,
        forall|s: usize| old(rt).valid_slot(s) ==> final(rt).task(s) == old(rt).task(s),
        final(rt).task(slot).kind is Coroutine,
        final(rt).task(slot).state is Runnable,
        final(rt).task(slot).location == Location::ReadyLocal(cpu),
        final(rt).task(slot).priority == 0,
        final(rt).task(slot).id.0 == slot as int + 1,
        final(rt).local_level(cpu, 0) == old(rt).local_level(cpu, 0).push(slot),
        forall|l: int| 0 < l < PRIO_LEVEL_NUM ==>
            #[trigger] final(rt).local_level(cpu, l) == old(rt).local_level(cpu, l),
        forall|c: usize| old(rt).proc_ok(c) && c != cpu ==>
            #[trigger] final(rt).proc(c) == old(rt).proc(c),
        final(rt).global_scheduler == old(rt).global_scheduler,
        forall|q: int| 0 <= q < old(rt).block_queues@.len() ==>
            #[trigger] final(rt).bq(q) == old(rt).bq(q),
        final(rt).block_queues@.len() == old(rt).block_queues@.len(),
        forall|c: usize| old(rt).proc_ok(c) ==>
            final(rt).proc_ok(c) && final(rt).current_of(c) == old(rt).current_of(c),
{
    rt.spawn_task(cpu, TaskKind::Coroutine, 0, false, false)
}

/// Spawns a thread task into the shared global queue, where any CPU may
/// pick it up.
pub fn spawn_to_global(rt: &mut Runtime, cpu: usize) -> (slot: usize)
    requires
        old(rt).wf(),
        old(rt).proc_ok(cpu),
        old(rt).tasks@.len() < usize::MAX,
    ensures
        final(rt).wf(),
        slot as int == old(rt).tasks@.len(),
        final(rt).tasks@.len() == old(rt).tasks@.len() + 1,
        forall|s: usize| old(rt).valid_slot(s) ==> final(rt).task(s) == old(rt).task(s),
        final(rt).task(slot).kind is Thread,
        final(rt).task(slot).state is Runnable,
        final(rt).task(slot).location == Location::ReadyGlobal,
        final(rt).task(slot).priority == 0,
        final(rt).task(slot).id.0 == slot as int + 1,
        final(rt).global_level(0) == old(rt).global_level(0).push(slot),
        forall|l: int| 0 < l < PRIO_LEVEL_NUM ==>
            #[trigger] final(rt).global_level(l) == old(rt).global_level(l),
        forall|q: int| 0 <= q < old(rt).block_queues@.len() ==>
            #[trigger] final(rt).bq(q) == old(rt).bq(q),
        final(rt).block_queues@.len() == old(rt).block_queues@.len(),
        forall|c: usize| old(rt).proc_ok(c) ==>
            final(rt).proc_ok(c) && final(rt).proc(c) == old(rt).proc(c),
{
    rt.spawn_task(cpu, TaskKind::Thread, 0, true, false)
}

/// Spawns a coroutine task into the shared global queue.
pub fn spawn_to_global_async(rt: &mut Runtime, cpu: usize) -> (slot: usize)
    requires
        old(rt).wf(),
        old(rt).proc_ok(cpu),
        old(rt).tasks@.len() < usize::MAX,
    ensures
        final(rt).wf(),
        slot as int == old(rt).tasks@.len(),
        final(rt).tasks@.len() == old(rt).tasks@.len() + 1,
        forall|s: usize| old(rt).valid_slot(s) ==> final(rt).task(s) == old(rt).task(s),
        final(rt).task(slot).kind is Coroutine,
        final(rt).task(slot).state is Runnable,
        final(rt).task(slot).location == Location::ReadyGlobal,
        final(rt).task(slot).priority == 0,
        final(rt).task(slot).id.0 == slot as int + 1,
        final(rt).global_level(0) == old(rt).global_level(0).push(slot),
        forall|l: int| 0 < l < PRIO_LEVEL_NUM ==>
            #[trigger] final(rt).global_level(l) == old(rt).global_level(l),
        forall|q: int| 0 <= q < old(rt).block_queues@.len() ==>
            #[trigger] final(rt).bq(q) == old(rt).bq(q),
        final(rt).block_queues@.len() == old(rt).block_queues@.len(),
        forall|c: usize| old(rt).proc_ok(c) ==>
            final(rt).proc_ok(c) && final(rt).proc(c) == old(rt).proc(c),
{
    rt.spawn_task(cpu, TaskKind::Coroutine, 0, true, false)
}

/// Whether the static-priority policy accepts a priority value.
pub open spec fn priority_is_valid(priority: isize) -> bool {
    0 <= priority < PRIO_LEVEL_NUM
}

/// Spawns a thread task into the local queue at a chosen priority; an
/// out-of-range priority creates nothing and reports the error.
pub fn spawn_to_local_with_priority(rt: &mut Runtime, cpu: usize, priority: isize)
    -> (r: Result<usize, InvalidPriorityError>)
    requires
        old(rt).wf(),
        old(rt).proc_ok(cpu),
        old(rt).tasks@.len() < usize::MAX,
    ensures
        final(rt).wf(),
        priority_is_valid(priority) <==> r is Ok,
        r matches Ok(slot) ==> {
            &&& slot as int == old(rt).tasks@.len()
            &&& final(rt).tasks@.len() == old(rt).tasks@.len() + 1
            &&& forall|s: usize| old(rt).valid_slot(s) ==> final(rt).task(s) == old(rt).task(s)
            &&& final(rt).task(slot).kind is Thread
            &&& final(rt).task(slot).state is Runnable
            &&& final(rt).task(slot).location == Location::ReadyLocal(cpu)
            &&& final(rt).task(slot).priority == priority
            &&& final(rt).local_level(cpu, priority as int)
                == old(rt).local_level(cpu, priority as int).push(slot)
            &&& (forall|l: int| 0 <= l < PRIO_LEVEL_NUM && l != priority ==>
                #[trigger] final(rt).local_level(cpu, l) == old(rt).local_level(cpu, l))
            &&& (forall|c: usize| old(rt).proc_ok(c) && c != cpu ==>
                #[trigger] final(rt).proc(c) == old(rt).proc(c))
            &&& final(rt).global_scheduler == old(rt).global_scheduler
            &&& (forall|qq: int| 0 <= qq < old(rt).block_queues@.len() ==>
                #[trigger] final(rt).bq(qq) == old(rt).bq(qq))
            &&& (forall|c: usize| old(rt).proc_ok(c) ==>
                final(rt).proc_ok(c) && final(rt).current_of(c) == old(rt).current_of(c))
        },
        r is Err ==> *final(rt) == *old(rt),
{
    if 0 <= priority && priority < PRIO_LEVEL_NUM as isize {
        Ok(rt.spawn_task(cpu, TaskKind::Thread, priority as usize, false, false))
    } else {
        Err(InvalidPriorityError)
    }
}

/// Spawns a coroutine task into the local queue at a chosen priority.
pub fn spawn_to_local_async_with_priority(rt: &mut Runtime, cpu: usize, priority: isize)
    -> (r: Result<usize, InvalidPriorityError>)
    requires
        old(rt).wf(),
        old(rt).proc_ok(cpu),
        old(rt).tasks@.len() < usize::MAX,
    ensures
        final(rt).wf(),
        priority_is_valid(priority) <==> r is Ok,
        r matches Ok(slot) ==> {
            &&& slot as int == old(rt).tasks@.len()
            &&& final(rt).tasks@.len() == old(rt).tasks@.len() + 1
            &&& forall|s: usize| old(rt).valid_slot(s) ==> final(rt).task(s) == old(rt).task(s)
            &&& final(rt).task(slot).kind is Coroutine
            &&& final(rt).task(slot).state is Runnable
            &&& final(rt).task(slot).location == Location::ReadyLocal(cpu)
            &&& final(rt).task(slot).priority == priority
            &&& final(rt).local_level(cpu, priority as int)
                == old(rt).local_level(cpu, priority as int).push(slot)
            &&& (forall|l: int| 0 <= l < PRIO_LEVEL_NUM && l != priority ==>
                #[trigger] final(rt).local_level(cpu, l) == old(rt).local_level(cpu, l))
            &&& (forall|c: usize| old(rt).proc_ok(c) && c != cpu ==>
                #[trigger] final(rt).proc(c) == old(rt).proc(c))
            &&& final(rt).global_scheduler == old(rt).global_scheduler
            &&& (forall|qq: int| 0 <= qq < old(rt).block_queues@.len() ==>
                #[trigger] final(rt).bq(qq) == old(rt).bq(qq))
            &&& (forall|c: usize| old(rt).proc_ok(c) ==>
                final(rt).proc_ok(c) && final(rt).current_of(c) == old(rt).current_of(c))
        },
        r is Err ==> *final(rt) == *old(rt),
{
    if 0 <= priority && priority < PRIO_LEVEL_NUM as isize {
        Ok(rt.spawn_task(cpu, TaskKind::Coroutine, priority as usize, false, false))
    } else {
        Err(InvalidPriorityError)
    }
}

/// Spawns a thread task into the global queue at a chosen priority.
pub fn spawn_to_global_with_priority(rt: &mut Runtime, cpu: usize, priority: isize)
    -> (r: Result<usize, InvalidPriorityError>)
    requires
        old(rt).wf(),
        old(rt).proc_ok(cpu),
        old(rt).tasks@.len() < usize::MAX,
    ensures
        final(rt).wf(),
        priority_is_valid(priority) <==> r is Ok,
        r matches Ok(slot) ==> {
            &&& slot as int == old(rt).tasks@.len()
            &&& final(rt).tasks@.len() == old(rt).tasks@.len() + 1
            &&& forall|s: usize| old(rt).valid_slot(s) ==> final(rt).task(s) == old(rt).task(s)
            &&& final(rt).task(slot).kind is Thread
            &&& final(rt).task(slot).state is Runnable
            &&& final(rt).task(slot).location == Location::ReadyGlobal
            &&& final(rt).task(slot).priority == priority
            &&& final(rt).global_level(priority as int)
                == old(rt).global_level(priority as int).push(slot)
            &&& (forall|l: int| 0 <= l < PRIO_LEVEL_NUM && l != priority ==>
                #[trigger] final(rt).global_level(l) == old(rt).global_level(l))
            &&& (forall|qq: int| 0 <= qq < old(rt).block_queues@.len() ==>
                #[trigger] final(rt).bq(qq) == old(rt).bq(qq))
            &&& (forall|c: usize| old(rt).proc_ok(c) ==>
                final(rt).proc_ok(c) && final(rt).proc(c) == old(rt).proc(c))
        },
        r is Err ==> *final(rt) == *old(rt),
{
    if 0 <= priority && priority < PRIO_LEVEL_NUM as isize {
        Ok(rt.spawn_task(cpu, TaskKind::Thread, priority as usize, true, false))
    } else {
        Err(InvalidPriorityError)
    }
}

/// Spawns a coroutine task into the global queue at a chosen priority.
pub fn spawn_to_global_async_with_priority(rt: &mut Runtime, cpu: usize, priority: isize)
    -> (r: Result<usize, InvalidPriorityError>)
    requires
        old(rt).wf(),
        old(rt).proc_ok(cpu),
        old(rt).tasks@.len() < usize::MAX,
    ensures
        final(rt).wf(),
        priority_is_valid(priority) <==> r is Ok,
        r matches Ok(slot) ==> {
            &&& slot as int == old(rt).tasks@.len()
            &&& final(rt).tasks@.len() == old(rt).tasks@.len() + 1
            &&& forall|s: usize| old(rt).valid_slot(s) ==> final(rt).task(s) == old(rt).task(s)
            &&& final(rt).task(slot).kind is Coroutine
            &&& final(rt).task(slot).state is Runnable
            &&& final(rt).task(slot).location == Location::ReadyGlobal
            &&& final(rt).task(slot).priority == priority
            &&& final(rt).global_level(priority as int)
                == old(rt).global_level(priority as int).push(slot)
            &&& (forall|l: int| 0 <= l < PRIO_LEVEL_NUM && l != priority ==>
                #[trigger] final(rt).global_level(l) == old(rt).global_level(l))
            &&& (forall|qq: int| 0 <= qq < old(rt).block_queues@.len() ==>
                #[trigger] final(rt).bq(qq) == old(rt).bq(qq))
            &&& (forall|c: usize| old(rt).proc_ok(c) ==>
                final(rt).proc_ok(c) && final(rt).proc(c) == old(rt).proc(c))
        },
        r is Err ==> *final(rt) == *old(rt),
{
    if 0 <= priority && priority < PRIO_LEVEL_NUM as isize {
        Ok(rt.spawn_task(cpu, TaskKind::Coroutine, priority as usize, true, false))
    } else {
        Err(InvalidPriorityError)
    }
}

impl Runtime {
    /// The priority hint of a CPU's local scheduler.
    pub open spec fn spec_local_hint(self, cpu: usize) -> int {
        self.proc(cpu).local_scheduler.spec_highest_priority()
    }

    /// The priority hint of the global scheduler.
    pub open spec fn spec_global_hint(self) -> int {
        self.global_scheduler.spec_highest_priority()
    }

    /// Whether both tiers are empty for this CPU, so only idle remains.
    pub open spec fn spec_both_empty(self, cpu: usize) -> bool {
        self.spec_local_hint(cpu) == PRIO_LEVEL_NUM
            && self.spec_global_hint() == PRIO_LEVEL_NUM
    }

    /// The two-tier rule: take from the local queue when its hint is at
    /// least as good (numerically no greater) than the global hint; the
    /// tie goes to the local queue.
    pub open spec fn spec_picks_local(self, cpu: usize) -> bool {
        !self.spec_both_empty(cpu) && self.spec_local_hint(cpu) <= self.spec_global_hint()
    }

    /// The slot the pick step hands the switch: the head of the better
    /// tier's best queue, or the idle task when both tiers are empty.
    pub open spec fn spec_picked_slot(self, cpu: usize) -> usize {
        if self.spec_both_empty(cpu) {
            self.proc(cpu).idle_task
        } else if self.spec_picks_local(cpu) {
            self.local_level(cpu, self.spec_local_hint(cpu))[0]
        } else {
            self.global_level(self.spec_global_hint())[0]
        }
    }

    /// The self-switch collapse: when the only pick is idle but the
    /// current task is still runnable, the switch keeps the current task
    /// rather than idling the CPU.
    pub open spec fn spec_collapse(self, cpu: usize) -> bool {
        self.spec_both_empty(cpu) && self.task(self.current_of(cpu)).state is Runnable
    }

    /// Which slot is the CPU's current task once the switch has decided.
    pub open spec fn spec_next_current(self, cpu: usize) -> usize {
        if self.spec_collapse(cpu) {
            self.current_of(cpu)
        } else {
            self.spec_picked_slot(cpu)
        }
    }

    /// Whether the switch puts the current task back into the local queue:
    /// it is still runnable, the pick did not collapse into it, and it is
    /// not the idle task (which is never enqueued).
    pub open spec fn spec_prev_requeued(self, cpu: usize) -> bool {
        &&& self.task(self.current_of(cpu)).state is Runnable
        &&& !self.spec_collapse(cpu)
        &&& !self.task(self.current_of(cpu)).is_idle
    }

    /// What the state of the outgoing task becomes: a runnable task stays
    /// runnable, a task in its blocking window parks, an exited task stays
    /// exited.
    pub open spec fn spec_prev_state_after(self, cpu: usize) -> TaskState {
        match self.task(self.current_of(cpu)).state {
            TaskState::Blocking => TaskState::Blocked,
            s => s,
        }
    }

    /// The local queues after the pick step removed its candidate.
    pub open spec fn spec_mid_local(self, cpu: usize, l: int) -> Seq<usize> {
        if self.spec_picks_local(cpu) && l == self.spec_local_hint(cpu) {
            self.local_level(cpu, l).drop_first()
        } else {
            self.local_level(cpu, l)
        }
    }

    /// The local queues after the whole switch: the pick may have removed
    /// the head of one level, and the outgoing task may have been appended
    /// at its own level.
    pub open spec fn spec_final_local(self, cpu: usize, l: int) -> Seq<usize> {
        if self.spec_prev_requeued(cpu) && l == self.task(self.current_of(cpu)).priority {
            self.spec_mid_local(cpu, l).push(self.current_of(cpu))
        } else {
            self.spec_mid_local(cpu, l)
        }
    }

    /// The global queues after the whole switch.
    pub open spec fn spec_final_global(self, cpu: usize, l: int) -> Seq<usize> {
        if !self.spec_both_empty(cpu) && !self.spec_picks_local(cpu)
            && l == self.spec_global_hint() {
            self.global_level(l).drop_first()
        } else {
            self.global_level(l)
        }
    }

    /// The complete effect of one switch on CPU `cpu`, relating the state
    /// before (`self`) to the state after (`n`): who became current and in
    /// what state, where the outgoing task went, how the ready queues
    /// changed, and that everything else stands untouched.
    pub open spec fn schedule_transition(self, n: Runtime, cpu: usize) -> bool {
        let o = self;
        let cur = o.current_of(cpu);
        let nxt = o.spec_next_current(cpu);
        &&& n.current_of(cpu) == nxt
        &&& n.task(nxt).state == (if nxt == cur { o.spec_prev_state_after(cpu) }
            else { TaskState::Runnable })
        &&& n.task(nxt).location == Location::Running(cpu)
        &&& n.task(nxt).saved_ctx is None
        &&& (n.task(nxt).owned_stack is None || n.task(nxt).owned_stack == o.task(nxt).owned_stack)
        &&& n.task(cur).state == o.spec_prev_state_after(cpu)
        &&& (o.spec_prev_requeued(cpu) ==>
            n.task(cur).location == Location::ReadyLocal(cpu))
        &&& (o.task(cur).state is Runnable && !o.spec_collapse(cpu)
                && o.task(cur).is_idle ==>
            n.task(cur).location == Location::IdleSlot(cpu))
        &&& (o.task(cur).state is Runnable && o.spec_collapse(cpu) ==>
            n.task(cur).location == Location::Running(cpu))
        &&& (o.task(cur).state is Blocking ==>
            n.task(cur).location == (match o.task(cur).location {
                Location::Parking(_, q) => Location::Parked(q),
                _ => Location::Detached,
            }))
        &&& (o.task(cur).state is Exited ==> n.task(cur).location == Location::Detached)
        &&& (nxt != cur ==> {
            &&& n.task(cur).saved_ctx == o.task(cur).saved_ctx
            &&& n.task(cur).owned_stack == o.task(cur).owned_stack
        })
        &&& n.tasks@.len() == o.tasks@.len()
        &&& (forall|s: usize| o.valid_slot(s) && s != cur && s != nxt ==>
            #[trigger] n.task(s) == o.task(s))
        &&& (forall|s: usize| o.valid_slot(s) ==> {
            &&& (#[trigger] n.task(s)).id == o.task(s).id
            &&& n.task(s).kind == o.task(s).kind
            &&& n.task(s).priority == o.task(s).priority
            &&& n.task(s).exit_code == o.task(s).exit_code
            &&& n.task(s).preempt_disable_count == o.task(s).preempt_disable_count
            &&& n.task(s).is_idle == o.task(s).is_idle
            &&& n.task(s).is_init == o.task(s).is_init
            &&& n.task(s).is_original == o.task(s).is_original
        })
        &&& (forall|l: int| 0 <= l < PRIO_LEVEL_NUM ==>
            #[trigger] n.local_level(cpu, l) == o.spec_final_local(cpu, l))
        &&& (forall|l: int| 0 <= l < PRIO_LEVEL_NUM ==>
            #[trigger] n.global_level(l) == o.spec_final_global(cpu, l))
        &&& (forall|c: usize| (c as int) < o.processors@.len() && c != cpu ==>
            #[trigger] n.processors@[c as int] == o.processors@[c as int])
        &&& n.processors@.len() == o.processors@.len()
        &&& n.proc_ok(cpu)
        &&& n.block_queues@.len() == o.block_queues@.len()
        &&& (forall|q: int| 0 <= q < o.block_queues@.len() ==> #[trigger] n.bq(q) == o.bq(q))
        &&& n.proc(cpu).idle_task == o.proc(cpu).idle_task
        &&& n.proc(cpu).original_task == o.proc(cpu).original_task
        &&& n.proc(cpu).id == o.proc(cpu).id
        &&& n.proc(cpu).switch_guard is None
        &&& n.proc(cpu).local_scheduler.wf()
        &&& n.global_scheduler.wf()
        &&& n.next_stack_id == o.next_stack_id
    }

    /// Shared facts about one switch: who the outgoing and incoming tasks
    /// are, where the incoming one was found, and that the two differ
    /// unless the switch collapsed into the outgoing task.
    proof fn lemma_pick_facts(self, cpu: usize)
        requires
            self.wf(),
            self.proc_ok(cpu),
        ensures
            ({
                let o = self;
                let cur = o.current_of(cpu);
                let nxt = o.spec_next_current(cpu);
                let lh = o.spec_local_hint(cpu);
                let gh = o.spec_global_hint();
                &&& o.valid_slot(cur)
                &&& o.valid_slot(nxt)
                &&& (o.task(cur).location == Location::Running(cpu)
                    || (o.task(cur).location matches Location::Parking(pc, _) && pc == cpu))
                &&& (o.task(cur).state is Runnable || o.task(cur).state is Blocking
                    || o.task(cur).state is Exited)
                &&& ((nxt == cur) <==> o.spec_collapse(cpu))
                &&& (o.spec_picks_local(cpu) ==> {
                    &&& 0 <= lh < PRIO_LEVEL_NUM
                    &&& o.local_level(cpu, lh).len() > 0
                    &&& o.local_level(cpu, lh)[0] == nxt
                    &&& o.task(nxt).location == Location::ReadyLocal(cpu)
                    &&& o.task(nxt).priority == lh
                    &&& !o.task(nxt).is_idle
                })
                &&& (!o.spec_both_empty(cpu) && !o.spec_picks_local(cpu) ==> {
                    &&& 0 <= gh < PRIO_LEVEL_NUM
                    &&& o.global_level(gh).len() > 0
                    &&& o.global_level(gh)[0] == nxt
                    &&& o.task(nxt).location == Location::ReadyGlobal
                    &&& o.task(nxt).priority == gh
                    &&& !o.task(nxt).is_idle
                })
                &&& (o.spec_both_empty(cpu) && !o.spec_collapse(cpu) ==> {
                    &&& nxt == self.proc(cpu).idle_task
                    &&& o.task(nxt).is_idle
                    &&& o.task(nxt).location == Location::IdleSlot(cpu)
                })
                &&& (o.spec_collapse(cpu) ==> o.task(cur).state is Runnable)
                &&& (o.task(nxt).state is Runnable)
            }),
    {
        let o = self;
        let cur = o.current_of(cpu);
        let nxt = o.spec_next_current(cpu);
        let lh = o.spec_local_hint(cpu);
        let gh = o.spec_global_hint();
        assert(o.proc_wf(cpu));
        assert(o.task_location_wf(cur));
        o.proc(cpu).local_scheduler.lemma_highest_priority();
        o.global_scheduler.lemma_highest_priority();
        if !o.spec_both_empty(cpu) {
            if o.spec_picks_local(cpu) {
                assert(o.local_level(cpu, lh).len() > 0);
                assert(o.local_level(cpu, lh).contains(o.local_level(cpu, lh)[0]));
                assert(o.task_location_wf(o.local_level(cpu, lh)[0]));
            } else {
                assert(o.global_level(gh).len() > 0);
                assert(o.global_level(gh).contains(o.global_level(gh)[0]));
                assert(o.task_location_wf(o.global_level(gh)[0]));
            }
            assert(nxt != cur);
            assert(!o.spec_collapse(cpu));
        } else {
            if !o.spec_collapse(cpu) {
                // only idle was available, and the outgoing task cannot stay
                assert(nxt == o.proc(cpu).idle_task);
                assert(o.task_location_wf(nxt));
                if nxt == cur {
                    // an idle current task is always runnable, which would
                    // have collapsed the switch
                    assert(o.task(cur).is_idle);
                    assert(!(o.task(cur).state is Blocking));
                    assert(!(o.task(cur).state is Exited));
                    assert(false);
                }
                assert(o.task(nxt).location == Location::IdleSlot(cpu));
            }
        }
    }

    /// A task untouched by the switch keeps a consistent placement.
    #[verifier::spinoff_prover]
    proof fn lemma_sched_loc_unmoved(&self, o: Runtime, cpu: usize, s: usize)
        requires
            o.wf(),
            o.proc_ok(cpu),
            o.schedule_transition(*self, cpu),
            o.valid_slot(s),
            s != o.current_of(cpu),
            s != o.spec_next_current(cpu),
        ensures
            self.task(s) == o.task(s),
            self.task_location_wf(s),
    {
        let n = *self;
        let cur = o.current_of(cpu);
        let nxt = o.spec_next_current(cpu);
        let lh = o.spec_local_hint(cpu);
        let gh = o.spec_global_hint();
        o.lemma_pick_facts(cpu);
        assert(o.task_location_wf(s));
        assert(n.task(s) == o.task(s));
        match o.task(s).location {
            Location::Running(c) => {
                if c == cpu {
                    assert(o.proc(cpu).current_task == s);
                    assert(false);
                }
                assert(n.proc(c) == o.proc(c));
            },
            Location::Parking(c, q) => {
                if c == cpu {
                    assert(o.proc(cpu).current_task == s);
                    assert(false);
                }
                assert(n.proc(c) == o.proc(c));
                assert(n.bq(q as int) == o.bq(q as int));
            },
            Location::ReadyLocal(c) => {
                let l = o.task(s).priority as int;
                assert(0 <= l < PRIO_LEVEL_NUM);
                if c == cpu {
                    assert(n.local_level(cpu, l) == o.spec_final_local(cpu, l));
                    assert(o.local_level(cpu, l).contains(s));
                    let i = choose|i: int| 0 <= i < o.local_level(cpu, l).len()
                        && o.local_level(cpu, l)[i] == s;
                    if o.spec_picks_local(cpu) && l == lh {
                        assert(o.local_level(cpu, l)[0] == nxt);
                        assert(i != 0);
                        assert(o.local_level(cpu, l).drop_first()[i - 1] == s);
                        assert(o.spec_mid_local(cpu, l).contains(s));
                    } else {
                        assert(o.spec_mid_local(cpu, l) == o.local_level(cpu, l));
                    }
                    if o.spec_prev_requeued(cpu) && l == o.task(cur).priority {
                        lemma_push_contains(o.spec_mid_local(cpu, l), cur, s);
                    }
                    assert(n.local_level(cpu, l).contains(s));
                } else {
                    assert(n.proc(c) == o.proc(c));
                }
            },
            Location::ReadyGlobal => {
                let l = o.task(s).priority as int;
                assert(0 <= l < PRIO_LEVEL_NUM);
                assert(n.global_level(l) == o.spec_final_global(cpu, l));
                if !o.spec_both_empty(cpu) && !o.spec_picks_local(cpu) && l == gh {
                    assert(o.global_level(l)[0] == nxt);
                    assert(o.global_level(l).contains(s));
                    let i = choose|i: int| 0 <= i < o.global_level(l).len()
                        && o.global_level(l)[i] == s;
                    assert(i != 0);
                    assert(o.global_level(l).drop_first()[i - 1] == s);
                }
                assert(n.global_level(l).contains(s));
            },
            Location::Parked(q) => {
                assert(n.bq(q as int) == o.bq(q as int));
            },
            Location::IdleSlot(c) => {
                if c == cpu {
                    assert(n.proc(cpu).idle_task == s);
                    assert(n.current_of(cpu) == nxt && nxt != s);
                } else {
                    assert(n.proc(c) == o.proc(c));
                }
            },
            Location::Detached => {},
        }
    }

    /// The outgoing task's new placement is consistent: re-enqueued, kept
    /// in its idle slot, parked, or detached.
    #[verifier::spinoff_prover]
    proof fn lemma_sched_loc_prev(&self, o: Runtime, cpu: usize)
        requires
            o.wf(),
            o.proc_ok(cpu),
            o.schedule_transition(*self, cpu),
            o.spec_next_current(cpu) != o.current_of(cpu),
        ensures
            self.task_location_wf(o.current_of(cpu)),
    {
        let n = *self;
        let cur = o.current_of(cpu);
        let nxt = o.spec_next_current(cpu);
        o.lemma_pick_facts(cpu);
        assert(o.task_location_wf(cur));
        assert(!o.spec_collapse(cpu));
        match o.task(cur).state {
            TaskState::Runnable => {
                if o.task(cur).is_idle {
                    assert(n.task(cur).location == Location::IdleSlot(cpu));
                    assert(o.task(cur).location == Location::Running(cpu));
                    assert(o.proc(cpu).idle_task == cur);
                    assert(n.current_of(cpu) == nxt && nxt != cur);
                } else {
                    assert(o.spec_prev_requeued(cpu));
                    assert(n.task(cur).location == Location::ReadyLocal(cpu));
                    let l = o.task(cur).priority as int;
                    assert(0 <= l < PRIO_LEVEL_NUM);
                    assert(n.local_level(cpu, l) == o.spec_final_local(cpu, l));
                    lemma_push_contains(o.spec_mid_local(cpu, l), cur, cur);
                    assert(n.local_level(cpu, l).contains(cur));
                }
            },
            TaskState::Blocking => {
                match o.task(cur).location {
                    Location::Parking(_, q) => {
                        assert(n.bq(q as int) == o.bq(q as int));
                        assert(n.task(cur).location == Location::Parked(q));
                        assert(!o.task(cur).is_idle);
                    },
                    _ => {
                        assert(o.task(cur).location == Location::Running(cpu));
                        assert(o.task(cur).is_original);
                        assert(n.task(cur).location == Location::Detached);
                    },
                }
            },
            _ => {
                assert(o.task(cur).state is Exited);
                assert(n.task(cur).location == Location::Detached);
            },
        }
    }

    /// The incoming task's placement is consistent: it runs on this CPU.
    #[verifier::spinoff_prover]
    proof fn lemma_sched_loc_next(&self, o: Runtime, cpu: usize)
        requires
            o.wf(),
            o.proc_ok(cpu),
            o.schedule_transition(*self, cpu),
        ensures
            self.task_location_wf(o.spec_next_current(cpu)),
    {
        let n = *self;
        let cur = o.current_of(cpu);
        let nxt = o.spec_next_current(cpu);
        o.lemma_pick_facts(cpu);
        assert(n.task(nxt).location == Location::Running(cpu));
        assert(n.current_of(cpu) == nxt);
        assert(n.task(nxt).state is Runnable);
        if n.task(nxt).is_idle {
            assert(o.task(nxt).is_idle);
            if o.spec_both_empty(cpu) && !o.spec_collapse(cpu) {
                assert(nxt == o.proc(cpu).idle_task);
            } else if o.spec_collapse(cpu) {
                assert(o.task(cur).location == Location::Running(cpu)
                    || (o.task(cur).location matches Location::Parking(pc, _) && pc == cpu));
                assert(o.task_location_wf(cur));
                assert(o.proc(cpu).idle_task == nxt);
            }
            assert(n.proc(cpu).idle_task == nxt);
        }
    }

    /// Task-side well-formedness after a switch.
    #[verifier::spinoff_prover]
    proof fn lemma_schedule_wf_tasks(&self, o: Runtime, cpu: usize)
        requires
            o.wf(),
            o.proc_ok(cpu),
            o.schedule_transition(*self, cpu),
        ensures
            self.tasks_wf(),
    {
        let n = *self;
        let cur = o.current_of(cpu);
        let nxt = o.spec_next_current(cpu);
        assert forall|s: usize| n.valid_slot(s) implies {
            let t = #[trigger] n.task(s);
            &&& t.id.0 == s as int + 1
            &&& t.priority < PRIO_LEVEL_NUM
            &&& n.task_location_wf(s)
            &&& (t.saved_ctx is Some ==> (t.owned_stack is Some || t.is_original))
            &&& !(t.is_idle && t.is_original)
        } by {
            assert(o.valid_slot(s));
            assert(o.task(s).id.0 == s as int + 1);
            assert(n.task(s).id == o.task(s).id);
            if s != cur && s != nxt {
                self.lemma_sched_loc_unmoved(o, cpu, s);
            } else if s == cur && s != nxt {
                self.lemma_sched_loc_prev(o, cpu);
                assert(n.task(cur).saved_ctx == o.task(cur).saved_ctx);
                assert(n.task(cur).owned_stack == o.task(cur).owned_stack);
            } else {
                self.lemma_sched_loc_next(o, cpu);
                assert(n.task(nxt).saved_ctx is None);
            }
        }
    }

    /// Processor-side well-formedness after a switch.
    #[verifier::spinoff_prover]
    proof fn lemma_schedule_wf_procs(&self, o: Runtime, cpu: usize)
        requires
            o.wf(),
            o.proc_ok(cpu),
            o.schedule_transition(*self, cpu),
        ensures
            self.procs_wf(),
    {
        let n = *self;
        let cur = o.current_of(cpu);
        let nxt = o.spec_next_current(cpu);
        o.lemma_pick_facts(cpu);
        assert forall|c: usize| #[trigger] n.proc_ok(c) implies n.proc_wf(c) by {
            assert(o.proc_ok(c));
            assert(o.proc_wf(c));
            if c == cpu {
                assert(n.task(nxt).location == Location::Running(cpu));
                let idle = o.proc(cpu).idle_task;
                assert(o.task_location_wf(idle));
                if idle != cur && idle != nxt {
                    self.lemma_sched_loc_unmoved(o, cpu, idle);
                    assert(n.task(idle) == o.task(idle));
                    if o.task(idle).location == Location::Running(cpu) {
                        assert(o.proc(cpu).current_task == idle);
                        assert(false);
                    }
                } else if idle == cur && nxt != cur {
                    // an idle current task is runnable, so it goes back to
                    // its idle slot
                    assert(o.task(cur).is_idle);
                    assert(o.task_location_wf(cur));
                    assert(!(o.task(cur).state is Blocking) && !(o.task(cur).state is Exited));
                    assert(n.task(cur).location == Location::IdleSlot(cpu));
                }
                assert(n.task(n.proc(c).original_task).is_original);
            } else {
                let cc = o.proc(c).current_task;
                assert(o.task_location_wf(cc));
                assert(cc != cur) by {
                    if cc == cur {
                        assert(o.task(cur).location == Location::Running(cpu)
                            || (o.task(cur).location matches Location::Parking(pc, _)
                                && pc == cpu));
                    }
                }
                assert(cc != nxt) by {
                    if cc == nxt && nxt != cur {
                        assert(o.task(nxt).state is Runnable);
                        assert(o.task(nxt).location == Location::Running(c)
                            || (o.task(nxt).location matches Location::Parking(pc, _)
                                && pc == c));
                    }
                }
                assert(n.task(cc) == o.task(cc));
                let idle = o.proc(c).idle_task;
                assert(o.task_location_wf(idle));
                assert(idle != cur && idle != nxt);
                assert(n.task(idle) == o.task(idle));
                assert(n.task(o.proc(c).original_task).is_original);
            }
        }
    }

    /// Queue-entry consistency after a switch.
    #[verifier::spinoff_prover]
    proof fn lemma_schedule_wf_queues(&self, o: Runtime, cpu: usize)
        requires
            o.wf(),
            o.proc_ok(cpu),
            o.schedule_transition(*self, cpu),
        ensures
            self.local_queues_wf(),
            self.global_queue_wf(),
            self.block_queues_wf(),
    {
        let n = *self;
        let cur = o.current_of(cpu);
        let nxt = o.spec_next_current(cpu);
        let lh = o.spec_local_hint(cpu);
        let gh = o.spec_global_hint();
        o.lemma_pick_facts(cpu);
        assert forall|c: usize, l: int, i: int|
            n.proc_ok(c) && 0 <= l < PRIO_LEVEL_NUM && 0 <= i < n.local_level(c, l).len()
            implies {
                let s = #[trigger] n.local_level(c, l)[i];
                &&& n.valid_slot(s)
                &&& n.task(s).location == Location::ReadyLocal(c)
                &&& n.task(s).priority == l
            } by {
            assert(o.proc_ok(c));
            if c != cpu {
                let s = n.local_level(c, l)[i];
                assert(o.local_level(c, l)[i] == s);
                assert(o.task(s).location == Location::ReadyLocal(c));
                assert(s != cur) by {
                    if s == cur {
                        assert(o.task(cur).location == Location::Running(cpu)
                            || (o.task(cur).location matches Location::Parking(pc, _)
                                && pc == cpu));
                    }
                }
                assert(s != nxt) by {
                    if s == nxt {
                        assert(nxt != cur);
                        if o.spec_picks_local(cpu) {
                            assert(o.task(nxt).location == Location::ReadyLocal(cpu));
                        } else if !o.spec_both_empty(cpu) {
                            assert(o.task(nxt).location == Location::ReadyGlobal);
                        } else {
                            assert(o.task(nxt).location == Location::IdleSlot(cpu));
                        }
                    }
                }
                assert(n.task(s) == o.task(s));
            } else {
                let s = n.local_level(cpu, l)[i];
                assert(n.local_level(cpu, l) == o.spec_final_local(cpu, l));
                if o.spec_prev_requeued(cpu) && l == o.task(cur).priority
                    && i == n.local_level(cpu, l).len() - 1 {
                    assert(s == cur);
                    assert(n.task(cur).location == Location::ReadyLocal(cpu));
                    assert(n.task(cur).priority == o.task(cur).priority);
                } else {
                    // an entry surviving from the old queue
                    assert(o.spec_mid_local(cpu, l)[i] == s);
                    if o.spec_picks_local(cpu) && l == lh {
                        assert(o.local_level(cpu, l)[i + 1] == s);
                        assert(o.local_level(cpu, l).no_duplicates());
                        assert(s != nxt);
                    } else {
                        assert(o.local_level(cpu, l)[i] == s);
                        if s == nxt {
                            assert(o.task(s).location == Location::ReadyLocal(cpu));
                            assert(!o.spec_both_empty(cpu));
                            assert(o.spec_picks_local(cpu) ==> o.task(nxt).priority == lh);
                            assert(!o.spec_picks_local(cpu) ==>
                                o.task(nxt).location == Location::ReadyGlobal);
                            assert(o.spec_picks_local(cpu));
                            assert(l == lh);
                            assert(false);
                        }
                    }
                    assert(o.task(s).location == Location::ReadyLocal(cpu));
                    assert(s != cur) by {
                        if s == cur {
                            assert(o.task(cur).location == Location::Running(cpu)
                                || (o.task(cur).location matches Location::Parking(pc, _)
                                    && pc == cpu));
                        }
                    }
                    assert(n.task(s) == o.task(s));
                }
            }
        }
        assert forall|l: int, i: int|
            0 <= l < PRIO_LEVEL_NUM && 0 <= i < n.global_level(l).len()
            implies {
                let s = #[trigger] n.global_level(l)[i];
                &&& n.valid_slot(s)
                &&& n.task(s).location == Location::ReadyGlobal
                &&& n.task(s).priority == l
            } by {
            let s = n.global_level(l)[i];
            assert(n.global_level(l) == o.spec_final_global(cpu, l));
            if !o.spec_both_empty(cpu) && !o.spec_picks_local(cpu) && l == gh {
                assert(o.global_level(l)[i + 1] == s);
                assert(o.global_level(l).no_duplicates());
                assert(s != nxt);
            } else {
                assert(o.global_level(l)[i] == s);
                assert(o.task(s).location == Location::ReadyGlobal);
                if s == nxt {
                    assert(!o.spec_both_empty(cpu));
                    assert(!o.spec_picks_local(cpu) ==> l == gh);
                    assert(o.spec_picks_local(cpu) ==>
                        o.task(nxt).location == Location::ReadyLocal(cpu));
                    assert(false);
                }
            }
            assert(o.task(s).location == Location::ReadyGlobal);
            assert(s != cur) by {
                if s == cur {
                    assert(o.task(cur).location == Location::Running(cpu)
                        || (o.task(cur).location matches Location::Parking(pc, _)
                            && pc == cpu));
                }
            }
            assert(n.task(s) == o.task(s));
        }
        assert forall|q: int, i: int|
            0 <= q < n.block_queues@.len() && 0 <= i < n.bq(q).len()
            implies {
                let s = #[trigger] n.bq(q)[i];
                &&& n.valid_slot(s)
                &&& (n.task(s).location == Location::Parked(q as usize)
                    || (n.task(s).location matches Location::Parking(_, qq) && qq == q))
            } by {
            assert(o.bq(q)[i] == n.bq(q)[i]);
            let s = n.bq(q)[i];
            assert(s != nxt) by {
                if s == nxt && nxt != cur {
                    assert(o.task(nxt).state is Runnable);
                    assert(o.task(s).location == Location::Parked(q as usize)
                        || (o.task(s).location matches Location::Parking(_, qq) && qq == q));
                }
            }
            if s == cur {
                assert(o.task(cur).location matches Location::Parking(pc, qq)
                    && pc == cpu && qq == q);
                assert(o.task(cur).state is Blocking);
                assert(n.task(cur).location == Location::Parked(q as usize));
            } else {
                assert(n.task(s) == o.task(s));
            }
        }
    }

    /// Queues stay duplicate-free across a switch.
    #[verifier::spinoff_prover]
    proof fn lemma_schedule_wf_nodup(&self, o: Runtime, cpu: usize)
        requires
            o.wf(),
            o.proc_ok(cpu),
            o.schedule_transition(*self, cpu),
        ensures
            self.queues_no_duplicates(),
    {
        let n = *self;
        let cur = o.current_of(cpu);
        let nxt = o.spec_next_current(cpu);
        let lh = o.spec_local_hint(cpu);
        o.lemma_pick_facts(cpu);
        assert forall|c: usize, l: int|
            n.proc_ok(c) && 0 <= l < PRIO_LEVEL_NUM
            implies (#[trigger] n.local_level(c, l)).no_duplicates() by {
            assert(o.proc_ok(c));
            assert(o.local_level(c, l).no_duplicates());
            if c == cpu {
                assert(n.local_level(cpu, l) == o.spec_final_local(cpu, l));
                if o.local_level(cpu, l).len() > 0 {
                    lemma_drop_first_props(o.local_level(cpu, l));
                }
                assert(o.spec_mid_local(cpu, l).no_duplicates());
                if o.spec_prev_requeued(cpu) && l == o.task(cur).priority {
                    assert(!o.spec_mid_local(cpu, l).contains(cur)) by {
                        if o.spec_mid_local(cpu, l).contains(cur) {
                            assert(o.local_level(cpu, l).contains(cur));
                            assert(o.task(cur).location == Location::ReadyLocal(cpu));
                            assert(o.task(cur).location == Location::Running(cpu)
                                || (o.task(cur).location matches Location::Parking(pc, _)
                                    && pc == cpu));
                        }
                    }
                    let fin = n.local_level(cpu, l);
                    let mid = o.spec_mid_local(cpu, l);
                    assert(fin == mid.push(cur));
                    assert forall|i: int, j: int|
                        0 <= i < fin.len() && 0 <= j < fin.len() && i != j
                        implies fin[i] != fin[j] by {
                        if j == fin.len() - 1 {
                            assert(fin[j] == cur);
                            if i < j {
                                assert(mid[i] == fin[i]);
                                assert(mid.contains(mid[i]));
                            }
                        } else if i == fin.len() - 1 {
                            assert(fin[i] == cur);
                            assert(mid[j] == fin[j]);
                            assert(mid.contains(mid[j]));
                        } else {
                            assert(mid[i] == fin[i] && mid[j] == fin[j]);
                        }
                    }
                }
            }
        }
        assert forall|l: int| 0 <= l < PRIO_LEVEL_NUM
            implies (#[trigger] n.global_level(l)).no_duplicates() by {
            assert(o.global_level(l).no_duplicates());
            assert(n.global_level(l) == o.spec_final_global(cpu, l));
            if o.global_level(l).len() > 0 {
                lemma_drop_first_props(o.global_level(l));
            }
        }
        assert forall|q: int| 0 <= q < n.block_queues@.len()
            implies (#[trigger] n.bq(q)).no_duplicates() by {
            assert(o.bq(q).no_duplicates());
            assert(n.bq(q) == o.bq(q));
        }
    }

    /// A switch that performs `schedule_transition` preserves the
    /// well-formedness invariant.
    proof fn lemma_schedule_wf(&self, o: Runtime, cpu: usize)
        requires
            o.wf(),
            o.proc_ok(cpu),
            o.schedule_transition(*self, cpu),
        ensures
            self.wf(),
    {
        self.lemma_schedule_wf_tasks(o, cpu);
        self.lemma_schedule_wf_procs(o, cpu);
        self.lemma_schedule_wf_queues(o, cpu);
        self.lemma_schedule_wf_nodup(o, cpu);
    }
}

impl Runtime {
    /// Consults both tiers by priority hint and takes the head of the
    /// better one, falling back to the idle task when both are empty.
    /// The caller completes the switch; until then the picked task is out
    /// of its queue but not yet current.
    #[verifier::rlimit(60)]
    #[verifier::spinoff_prover]
    fn pick_next_task(&mut self, cpu: usize) -> (next: usize)
        requires
            old(self).wf(),
            old(self).proc_ok(cpu),
        ensures
            ({
                let o = *old(self);
                let n = *final(self);
                &&& next == o.spec_picked_slot(cpu)
                &&& o.valid_slot(next)
                &&& n.tasks@ == o.tasks@
                &&& (forall|c: usize| (c as int) < o.processors@.len() && c != cpu ==>
                    #[trigger] n.processors@[c as int] == o.processors@[c as int])
                &&& n.processors@.len() == o.processors@.len()
                &&& n.proc_ok(cpu)
                &&& n.proc(cpu) == (Processor {
                    local_scheduler: n.proc(cpu).local_scheduler,
                    ..o.proc(cpu)
                })
                &&& n.proc(cpu).local_scheduler.wf()
                &&& (forall|l: int| 0 <= l < PRIO_LEVEL_NUM ==>
                    #[trigger] n.local_level(cpu, l) == o.spec_mid_local(cpu, l))
                &&& (forall|l: int| 0 <= l < PRIO_LEVEL_NUM ==>
                    #[trigger] n.global_level(l) == o.spec_final_global(cpu, l))
                &&& n.global_scheduler.wf()
                &&& n.block_queues@ == o.block_queues@
                &&& n.next_stack_id == o.next_stack_id
            }),
    {
        let ghost o = *old(self);
        let proc_ref = match &self.processors[cpu] {
            Some(p) => p,
            None => { unreached() },
        };
        let idle_slot = proc_ref.idle_task;
        let local_hint = proc_ref.local_scheduler.highest_priority();
        let global_hint = self.global_scheduler.highest_priority();

        let picked_opt: Option<usize>;
        if local_hint <= global_hint {
            let proc_opt = self.processors[cpu].take();
            if let Some(mut p) = proc_opt {
                picked_opt = p.local_scheduler.pick_next_task();
                self.processors[cpu] = Some(p);
            } else {
                picked_opt = unreached();
            }
        } else {
            picked_opt = self.global_scheduler.pick_next_task();
        }
        let next = match picked_opt {
            Some(s) => s,
            None => idle_slot,
        };
        proof {
            assert(o.proc_wf(cpu));
            o.proc(cpu).local_scheduler.lemma_highest_priority();
            o.global_scheduler.lemma_highest_priority();
            if picked_opt is Some {
                if local_hint <= global_hint {
                    assert(!o.proc(cpu).local_scheduler.spec_is_empty());
                    assert(next == o.local_level(cpu, o.spec_local_hint(cpu))[0]);
                    assert(o.spec_picks_local(cpu));
                } else {
                    assert(!o.global_scheduler.spec_is_empty());
                    assert(next == o.global_level(o.spec_global_hint())[0]);
                    assert(!o.spec_picks_local(cpu));
                }
                assert(next == o.spec_picked_slot(cpu));
                assert(o.valid_slot(next));
            } else {
                assert(o.proc(cpu).local_scheduler.spec_is_empty());
                assert(o.spec_local_hint(cpu) == PRIO_LEVEL_NUM);
                assert(o.spec_global_hint() == PRIO_LEVEL_NUM);
                assert(o.spec_both_empty(cpu));
                assert(next == idle_slot);
                assert(o.valid_slot(next));
                assert(next == o.spec_picked_slot(cpu));
            }
        }
        next
    }
}

/// Picks the next task and switches to it: the core of the dispatch loop.
///
/// The two tiers are consulted by priority hint (ties go local), the
/// outgoing task is resolved under its state — re-enqueued locally if
/// still runnable, parked if blocking, left detached if exited, or kept
/// on the CPU when only idle was available — and the incoming task
/// becomes current. The returned action tells the executor how to resume
/// it: by loading its saved register frame (bit-exact, with the task's
/// owned stack re-installed as the CPU's current stack and the transit
/// stack recycled), or by polling its future.
#[verifier::rlimit(100)]
#[verifier::spinoff_prover]
pub fn schedule_without_sp_change(rt: &mut Runtime, cpu: usize) -> (action: SwitchAction)
    requires
        old(rt).wf(),
        old(rt).proc_ok(cpu),
    ensures
        final(rt).wf(),
        final(rt).proc_ok(cpu),
        old(rt).schedule_transition(*final(rt), cpu),
        // the action mirrors how the incoming task had suspended
        ({
            let o = *old(rt);
            let n = *final(rt);
            let nxt = o.spec_next_current(cpu);
            match o.task(nxt).saved_ctx {
                Some(frame) => {
                    &&& action == SwitchAction::LoadContext(frame)
                    &&& n.task(nxt).owned_stack is None
                    &&& (match o.task(nxt).owned_stack {
                        Some(st) => {
                            &&& n.proc(cpu).stack_pool.curr_stack == Some(st)
                            &&& n.proc(cpu).stack_pool.free_stacks@
                                == (match o.proc(cpu).stack_pool.curr_stack {
                                    Some(oc) => o.proc(cpu).stack_pool.free_stacks@.push(oc),
                                    None => o.proc(cpu).stack_pool.free_stacks@,
                                })
                        },
                        None => n.proc(cpu).stack_pool == o.proc(cpu).stack_pool,
                    })
                },
                None => {
                    &&& action == SwitchAction::Poll
                    &&& n.proc(cpu).stack_pool == o.proc(cpu).stack_pool
                },
            }
        }),
        forall|s: usize| old(rt).valid_slot(s) && old(rt).task(s).state is Exited ==>
            final(rt).task(s).state is Exited,
        forall|s: usize| old(rt).valid_slot(s) ==>
            ((#[trigger] final(rt).task(s)).state == old(rt).task(s).state
                || crate::task::state_transition_allowed(old(rt).task(s).state,
                    final(rt).task(s).state)),
{
    let ghost o = *old(rt);
    let cur = current_ptr(rt, cpu);
    let next = rt.pick_next_task(cpu);
    let ghost mid_rt = *rt;
    proof {
        o.lemma_pick_facts(cpu);
    }

    // resolve the outgoing task
    let prev = rt.tasks[cur];
    let mut collapse = false;
    match prev.state {
        TaskState::Runnable => {
            if rt.tasks[next].is_idle {
                collapse = true;
            } else if !prev.is_idle {
                let mut t = prev;
                t.location = Location::ReadyLocal(cpu);
                rt.tasks[cur] = t;
                let proc_opt = rt.processors[cpu].take();
                if let Some(mut p) = proc_opt {
                    p.local_scheduler.add_task(cur, t.priority);
                    rt.processors[cpu] = Some(p);
                }
            } else {
                let mut t = prev;
                t.location = Location::IdleSlot(cpu);
                rt.tasks[cur] = t;
            }
        },
        TaskState::Blocking => {
            let mut t = prev;
            t.state = TaskState::Blocked;
            t.location = match t.location {
                Location::Parking(_, q) => Location::Parked(q),
                _ => Location::Detached,
            };
            rt.tasks[cur] = t;
        },
        TaskState::Blocked => {
            unreached()
        },
        TaskState::Exited => {
            let mut t = prev;
            t.location = Location::Detached;
            rt.tasks[cur] = t;
        },
    }

    // install the incoming task
    let new_cur = if collapse { cur } else { next };
    if !collapse {
        let mut t = rt.tasks[next];
        t.location = Location::Running(cpu);
        rt.tasks[next] = t;
        let proc_opt = rt.processors[cpu].take();
        if let Some(mut p) = proc_opt {
            p.current_task = next;
            rt.processors[cpu] = Some(p);
        }
    }

    // decide how the incoming task resumes
    let nt = rt.tasks[new_cur];
    let action: SwitchAction;
    match nt.saved_ctx {
        Some(ctx) => {
            let mut t = nt;
            t.saved_ctx = None;
            let owned = t.owned_stack;
            t.owned_stack = None;
            rt.tasks[new_cur] = t;
            if let Some(st) = owned {
                let proc_opt = rt.processors[cpu].take();
                if let Some(mut p) = proc_opt {
                    let old_curr = p.stack_pool.swap_curr_stack(Some(st));
                    if let Some(oc) = old_curr {
                        p.stack_pool.recycle_stack(oc);
                    }
                    rt.processors[cpu] = Some(p);
                }
            }
            action = SwitchAction::LoadContext(ctx);
        },
        None => {
            action = SwitchAction::Poll;
        },
    }
    proof {
        assert forall|l: int| 0 <= l < PRIO_LEVEL_NUM implies
            #[trigger] rt.local_level(cpu, l) == o.spec_final_local(cpu, l) by {
            assert(mid_rt.local_level(cpu, l) == o.spec_mid_local(cpu, l));
        }
        assert forall|l: int| 0 <= l < PRIO_LEVEL_NUM implies
            #[trigger] rt.global_level(l) == o.spec_final_global(cpu, l) by {
            assert(mid_rt.global_level(l) == o.spec_final_global(cpu, l));
        }
        assert(o.schedule_transition(*rt, cpu));
        rt.lemma_schedule_wf(o, cpu);
    }
    action
}

/// The declared identity of the calling CPU's processor.
pub fn current_processor_id(rt: &Runtime, cpu: usize) -> (r: usize)
    requires
        rt.wf(),
        rt.proc_ok(cpu),
    ensures
        r == cpu,
{
    let proc_ref = match &rt.processors[cpu] {
        Some(p) => p,
        None => { unreached() },
    };
    proc_ref.id
}

/// The identifier of the task currently executing on the calling CPU.
pub fn current_id(rt: &Runtime, cpu: usize) -> (r: u64)
    requires
        rt.wf(),
        rt.proc_ok(cpu),
    ensures
        r == rt.task(rt.current_of(cpu)).id.0,
        r as int == rt.current_of(cpu) as int + 1,
{
    let proc_ref = match &rt.processors[cpu] {
        Some(p) => p,
        None => { unreached() },
    };
    let cur = proc_ref.current_task;
    rt.tasks[cur].id.as_u64()
}

/// The task-table slot of the task currently executing on the calling CPU.
pub fn current_ptr(rt: &Runtime, cpu: usize) -> (r: usize)
    requires
        rt.wf(),
        rt.proc_ok(cpu),
    ensures
        r == rt.current_of(cpu),
        rt.valid_slot(r),
{
    let proc_ref = match &rt.processors[cpu] {
        Some(p) => p,
        None => { unreached() },
    };
    proc_ref.current_task
}

/// Raises the preemption-disable counter of the current task: while the
/// counter is positive, the timer path will not preempt it.
/// The guard hooks may fire before this CPU has been initialised: the
/// call is then a no-op, exactly as early lock acquisitions expect.
pub fn current_disable_preempt(rt: &mut Runtime, cpu: usize)
    requires
        old(rt).wf(),
        old(rt).proc_ok(cpu) ==>
            old(rt).task(old(rt).current_of(cpu)).preempt_disable_count < u64::MAX,
    ensures
        final(rt).wf(),
        !old(rt).proc_ok(cpu) ==> *final(rt) == *old(rt),
        old(rt).proc_ok(cpu) ==> {
            &&& final(rt).tasks@ == old(rt).tasks@.update(old(rt).current_of(cpu) as int,
                final(rt).task(old(rt).current_of(cpu)))
            &&& final(rt).task(old(rt).current_of(cpu)) == (Task {
                preempt_disable_count: crate::task::spec_disable_preempt(
                    old(rt).task(old(rt).current_of(cpu)).preempt_disable_count),
                ..old(rt).task(old(rt).current_of(cpu))
            })
            &&& final(rt).processors@ == old(rt).processors@
            &&& final(rt).global_scheduler == old(rt).global_scheduler
            &&& final(rt).block_queues@ == old(rt).block_queues@
            &&& (forall|s: usize| old(rt).valid_slot(s) && s != old(rt).current_of(cpu) ==>
                #[trigger] final(rt).task(s) == old(rt).task(s))
        },
{
    if cpu >= rt.processors.len() {
        return;
    }
    let initialized = rt.processors[cpu].is_some();
    if !initialized {
        return;
    }
    let cur = current_ptr(rt, cpu);
    let mut t = rt.tasks[cur];
    t.increase_preempt_disable_count();
    rt.tasks[cur] = t;
    proof {
        rt.lemma_update_task_wf(*old(rt), cur, cpu);
    }
}

/// Lowers the preemption-disable counter of the current task. Calls are
/// balanced against raises, so the counter is positive here.
/// Like the disable hook, an enable that fires before this CPU has been
/// initialised is a no-op. On an initialised CPU, calls are balanced
/// against raises, so the counter is positive here.
pub fn current_enable_preempt(rt: &mut Runtime, cpu: usize)
    requires
        old(rt).wf(),
        old(rt).proc_ok(cpu) ==>
            old(rt).task(old(rt).current_of(cpu)).preempt_disable_count > 0,
    ensures
        final(rt).wf(),
        !old(rt).proc_ok(cpu) ==> *final(rt) == *old(rt),
        old(rt).proc_ok(cpu) ==> {
            &&& final(rt).tasks@ == old(rt).tasks@.update(old(rt).current_of(cpu) as int,
                final(rt).task(old(rt).current_of(cpu)))
            &&& final(rt).task(old(rt).current_of(cpu)) == (Task {
                preempt_disable_count: crate::task::spec_enable_preempt(
                    old(rt).task(old(rt).current_of(cpu)).preempt_disable_count),
                ..old(rt).task(old(rt).current_of(cpu))
            })
            &&& final(rt).processors@ == old(rt).processors@
            &&& final(rt).global_scheduler == old(rt).global_scheduler
            &&& final(rt).block_queues@ == old(rt).block_queues@
            &&& (forall|s: usize| old(rt).valid_slot(s) && s != old(rt).current_of(cpu) ==>
                #[trigger] final(rt).task(s) == old(rt).task(s))
        },
{
    if cpu >= rt.processors.len() {
        return;
    }
    let initialized = rt.processors[cpu].is_some();
    if !initialized {
        return;
    }
    let cur = current_ptr(rt, cpu);
    let mut t = rt.tasks[cur];
    t.decrease_preempt_disable_count();
    rt.tasks[cur] = t;
    proof {
        rt.lemma_update_task_wf(*old(rt), cur, cpu);
    }
}

/// Whether the timer may preempt the task currently running on this CPU.
pub fn current_can_preempt(rt: &Runtime, cpu: usize) -> (r: bool)
    requires
        rt.wf(),
        rt.proc_ok(cpu),
    ensures
        r == (rt.task(rt.current_of(cpu)).preempt_disable_count == 0),
{
    let cur = current_ptr(rt, cpu);
    rt.tasks[cur].can_preempt()
}

/// Changes the priority of the current task. The change applies from its
/// next enqueue; an out-of-range priority changes nothing and reports the
/// error, exactly when `priority_is_valid` fails.
pub fn change_current_priority(rt: &mut Runtime, cpu: usize, new_priority: isize)
    -> (r: Result<(), InvalidPriorityError>)
    requires
        old(rt).wf(),
        old(rt).proc_ok(cpu),
    ensures
        final(rt).wf(),
        priority_is_valid(new_priority) <==> r is Ok,
        r is Ok ==> final(rt).task(old(rt).current_of(cpu)) == (Task {
            priority: new_priority as usize,
            ..old(rt).task(old(rt).current_of(cpu))
        }),
        r is Err ==> *final(rt) == *old(rt),
        forall|s: usize| old(rt).valid_slot(s) && s != old(rt).current_of(cpu) ==>
            final(rt).task(s) == old(rt).task(s),
        final(rt).processors@ == old(rt).processors@,
        final(rt).global_scheduler == old(rt).global_scheduler,
        final(rt).block_queues@ == old(rt).block_queues@,
{
    if 0 <= new_priority && new_priority < PRIO_LEVEL_NUM as isize {
        let cur = current_ptr(rt, cpu);
        let mut t = rt.tasks[cur];
        t.priority = new_priority as usize;
        rt.tasks[cur] = t;
        proof {
            rt.lemma_update_task_wf(*old(rt), cur, cpu);
        }
        Ok(())
    } else {
        Err(InvalidPriorityError)
    }
}

impl Runtime {
    /// Creates a new, empty block queue and returns its identity.
    pub fn new_block_queue(&mut self) -> (q: usize)
        requires
            old(self).wf(),
            old(self).block_queues@.len() < usize::MAX,
        ensures
            final(self).wf(),
            q as int == old(self).block_queues@.len(),
            final(self).block_queues@.len() == old(self).block_queues@.len() + 1,
            final(self).bq(q as int).len() == 0,
            final(self).tasks@ == old(self).tasks@,
            final(self).processors@ == old(self).processors@,
            final(self).global_scheduler == old(self).global_scheduler,
            forall|qq: int| 0 <= qq < old(self).block_queues@.len() ==>
                #[trigger] final(self).bq(qq) == old(self).bq(qq),
    {
        let q = self.block_queues.len();
        self.block_queues.push(BlockQueue { waiters: Vec::new() });
        proof {
            let o = *old(self);
            let n = *self;
            assert forall|s: usize| n.valid_slot(s) implies {
                let t = #[trigger] n.task(s);
                &&& t.id.0 == s as int + 1
                &&& t.priority < PRIO_LEVEL_NUM
                &&& n.task_location_wf(s)
                &&& (t.saved_ctx is Some ==> (t.owned_stack is Some || t.is_original))
                &&& !(t.is_idle && t.is_original)
            } by {
                assert(n.task(s) == o.task(s));
                assert(o.task_location_wf(s));
                match o.task(s).location {
                    Location::Parking(c, qq) => { assert(n.bq(qq as int) == o.bq(qq as int)); },
                    Location::Parked(qq) => { assert(n.bq(qq as int) == o.bq(qq as int)); },
                    _ => {},
                }
            }
            assert(n.tasks_wf());
            assert forall|c: usize| #[trigger] n.proc_ok(c) implies n.proc_wf(c) by {
                assert(o.proc_ok(c));
                assert(o.proc_wf(c));
            }
            assert forall|c: usize, l: int, i: int|
                n.proc_ok(c) && 0 <= l < PRIO_LEVEL_NUM && 0 <= i < n.local_level(c, l).len()
                implies {
                    let s = #[trigger] n.local_level(c, l)[i];
                    &&& n.valid_slot(s)
                    &&& n.task(s).location == Location::ReadyLocal(c)
                    &&& n.task(s).priority == l
                } by {
                assert(o.proc_ok(c));
                assert(o.local_level(c, l)[i] == n.local_level(c, l)[i]);
            }
            assert forall|l: int, i: int|
                0 <= l < PRIO_LEVEL_NUM && 0 <= i < n.global_level(l).len()
                implies {
                    let s = #[trigger] n.global_level(l)[i];
                    &&& n.valid_slot(s)
                    &&& n.task(s).location == Location::ReadyGlobal
                    &&& n.task(s).priority == l
                } by {
                assert(o.global_level(l)[i] == n.global_level(l)[i]);
            }
            assert forall|qq: int, i: int|
                0 <= qq < n.block_queues@.len() && 0 <= i < n.bq(qq).len()
                implies {
                    let s = #[trigger] n.bq(qq)[i];
                    &&& n.valid_slot(s)
                    &&& (n.task(s).location == Location::Parked(qq as usize)
                        || (n.task(s).location matches Location::Parking(_, q2) && q2 == qq))
                } by {
                assert(qq != q as int);
                assert(o.bq(qq)[i] == n.bq(qq)[i]);
            }
            assert forall|c: usize, l: int|
                n.proc_ok(c) && 0 <= l < PRIO_LEVEL_NUM
                implies (#[trigger] n.local_level(c, l)).no_duplicates() by {
                assert(o.proc_ok(c));
                assert(o.local_level(c, l).no_duplicates());
            }
            assert forall|l: int| 0 <= l < PRIO_LEVEL_NUM
                implies (#[trigger] n.global_level(l)).no_duplicates() by {
                assert(o.global_level(l).no_duplicates());
            }
            assert forall|qq: int| 0 <= qq < n.block_queues@.len()
                implies (#[trigger] n.bq(qq)).no_duplicates() by {
                if qq != q as int {
                    assert(o.bq(qq).no_duplicates());
                }
            }
            assert(n.wf());
        }
        q
    }

    /// The well-formedness bookkeeping for entering the blocking window:
    /// the current task turned `Blocking` and joined one block queue.
    proof fn lemma_park_wf(&self, o: Runtime, cpu: usize, q: usize)
        requires
            o.wf(),
            o.proc_ok(cpu),
            o.valid_queue(q),
            o.task(o.current_of(cpu)).state is Runnable,
            o.task(o.current_of(cpu)).location == Location::Running(cpu),
            !o.task(o.current_of(cpu)).is_idle,
            self.tasks@ == o.tasks@.update(o.current_of(cpu) as int,
                self.task(o.current_of(cpu))),
            self.task(o.current_of(cpu)) == (Task {
                state: TaskState::Blocking,
                location: Location::Parking(cpu, q),
                ..o.task(o.current_of(cpu))
            }),
            self.processors@ == o.processors@,
            self.global_scheduler == o.global_scheduler,
            self.block_queues@.len() == o.block_queues@.len(),
            self.bq(q as int) == o.bq(q as int).push(o.current_of(cpu)),
            forall|qq: int| 0 <= qq < o.block_queues@.len() && qq != q ==>
                #[trigger] self.bq(qq) == o.bq(qq),
        ensures
            self.wf(),
    {
        let n = *self;
        let cur = o.current_of(cpu);
        lemma_push_contains(o.bq(q as int), cur, cur);
        assert forall|s: usize| n.valid_slot(s) implies {
            let t = #[trigger] n.task(s);
            &&& t.id.0 == s as int + 1
            &&& t.priority < PRIO_LEVEL_NUM
            &&& n.task_location_wf(s)
            &&& (t.saved_ctx is Some ==> (t.owned_stack is Some || t.is_original))
            &&& !(t.is_idle && t.is_original)
        } by {
            assert(o.task_location_wf(s));
            if s != cur {
                assert(n.task(s) == o.task(s));
                match o.task(s).location {
                    Location::Parking(c, qq) => {
                        if qq == q {
                            lemma_push_contains(o.bq(q as int), cur, s);
                        }
                        assert(n.bq(qq as int).contains(s));
                    },
                    Location::Parked(qq) => {
                        if qq == q {
                            lemma_push_contains(o.bq(q as int), cur, s);
                        }
                        assert(n.bq(qq as int).contains(s));
                    },
                    _ => {},
                }
            } else {
                assert(n.bq(q as int).contains(cur));
            }
        }
        assert(n.tasks_wf());
        assert forall|c: usize| #[trigger] n.proc_ok(c) implies n.proc_wf(c) by {
            assert(o.proc_ok(c));
            assert(o.proc_wf(c));
            if o.proc(c).current_task == cur {
                assert(c == cpu);
            }
            assert(n.task(o.proc(c).idle_task).is_idle == o.task(o.proc(c).idle_task).is_idle);
        }
        assert forall|c: usize, l: int, i: int|
            n.proc_ok(c) && 0 <= l < PRIO_LEVEL_NUM && 0 <= i < n.local_level(c, l).len()
            implies {
                let s = #[trigger] n.local_level(c, l)[i];
                &&& n.valid_slot(s)
                &&& n.task(s).location == Location::ReadyLocal(c)
                &&& n.task(s).priority == l
            } by {
            assert(o.proc_ok(c));
            let s = n.local_level(c, l)[i];
            assert(o.local_level(c, l)[i] == s);
            assert(o.task(s).location == Location::ReadyLocal(c));
            assert(s != cur);
        }
        assert forall|l: int, i: int|
            0 <= l < PRIO_LEVEL_NUM && 0 <= i < n.global_level(l).len()
            implies {
                let s = #[trigger] n.global_level(l)[i];
                &&& n.valid_slot(s)
                &&& n.task(s).location == Location::ReadyGlobal
                &&& n.task(s).priority == l
            } by {
            let s = n.global_level(l)[i];
            assert(o.global_level(l)[i] == s);
            assert(o.task(s).location == Location::ReadyGlobal);
            assert(s != cur);
        }
        assert forall|qq: int, i: int|
            0 <= qq < n.block_queues@.len() && 0 <= i < n.bq(qq).len()
            implies {
                let s = #[trigger] n.bq(qq)[i];
                &&& n.valid_slot(s)
                &&& (n.task(s).location == Location::Parked(qq as usize)
                    || (n.task(s).location matches Location::Parking(_, q2) && q2 == qq))
            } by {
            if qq == q && i == n.bq(qq).len() - 1 {
                assert(n.bq(qq)[i] == cur);
            } else {
                assert(n.bq(qq)[i] == o.bq(qq)[i]);
                let s = o.bq(qq)[i];
                assert(o.task(s).location == Location::Parked(qq as usize)
                    || (o.task(s).location matches Location::Parking(_, q2) && q2 == qq));
                assert(s != cur);
            }
        }
        assert forall|c: usize, l: int|
            n.proc_ok(c) && 0 <= l < PRIO_LEVEL_NUM
            implies (#[trigger] n.local_level(c, l)).no_duplicates() by {
            assert(o.proc_ok(c));
            assert(o.local_level(c, l).no_duplicates());
        }
        assert forall|l: int| 0 <= l < PRIO_LEVEL_NUM
            implies (#[trigger] n.global_level(l)).no_duplicates() by {
            assert(o.global_level(l).no_duplicates());
        }
        assert forall|qq: int| 0 <= qq < n.block_queues@.len()
            implies (#[trigger] n.bq(qq)).no_duplicates() by {
            assert(o.bq(qq).no_duplicates());
            if qq == q {
                assert(!o.bq(qq).contains(cur)) by {
                    if o.bq(qq).contains(cur) {
                        let i = choose|i: int| 0 <= i < o.bq(qq).len() && o.bq(qq)[i] == cur;
                        assert(o.task(cur).location == Location::Parked(q)
                            || (o.task(cur).location matches Location::Parking(_, q2)
                                && q2 == qq));
                    }
                }
                let fin = n.bq(qq);
                assert forall|i: int, j: int|
                    0 <= i < fin.len() && 0 <= j < fin.len() && i != j
                    implies fin[i] != fin[j] by {
                    if j == fin.len() - 1 {
                        assert(fin[j] == cur);
                        if i < j {
                            assert(o.bq(qq)[i] == fin[i]);
                            assert(o.bq(qq).contains(o.bq(qq)[i]));
                        }
                    } else if i == fin.len() - 1 {
                        assert(fin[i] == cur);
                        assert(o.bq(qq)[j] == fin[j]);
                        assert(o.bq(qq).contains(o.bq(qq)[j]));
                    } else {
                        assert(o.bq(qq)[i] == fin[i] && o.bq(qq)[j] == fin[j]);
                    }
                }
            }
        }
        assert(n.wf());
    }
}

/// Enters the blocking window: the current task decides to block, turns
/// `Blocking` and joins the given block queue, while still holding its CPU.
/// The switch that actually parks it comes separately, so a wake racing
/// this window finds the task and simply turns it runnable again.
pub fn block_current_begin(rt: &mut Runtime, cpu: usize, q: usize)
    requires
        old(rt).wf(),
        old(rt).proc_ok(cpu),
        old(rt).valid_queue(q),
        old(rt).task(old(rt).current_of(cpu)).state is Runnable,
        old(rt).task(old(rt).current_of(cpu)).location
            == crate::task::Location::Running(cpu),
        !old(rt).task(old(rt).current_of(cpu)).is_idle,
        old(rt).bq(q as int).len() < usize::MAX,
    ensures
        final(rt).wf(),
        final(rt).proc_ok(cpu),
        final(rt).current_of(cpu) == old(rt).current_of(cpu),
        final(rt).task(old(rt).current_of(cpu)) == (Task {
            state: TaskState::Blocking,
            location: Location::Parking(cpu, q),
            ..old(rt).task(old(rt).current_of(cpu))
        }),
        final(rt).bq(q as int) == old(rt).bq(q as int).push(old(rt).current_of(cpu)),
        forall|qq: int| 0 <= qq < old(rt).block_queues@.len() && qq != q ==>
            #[trigger] final(rt).bq(qq) == old(rt).bq(qq),
        final(rt).block_queues@.len() == old(rt).block_queues@.len(),
        forall|s: usize| old(rt).valid_slot(s) && s != old(rt).current_of(cpu) ==>
            #[trigger] final(rt).task(s) == old(rt).task(s),
        final(rt).processors@ == old(rt).processors@,
        final(rt).global_scheduler == old(rt).global_scheduler,
        final(rt).tasks@.len() == old(rt).tasks@.len(),
        final(rt).next_stack_id == old(rt).next_stack_id,
        forall|s: usize| old(rt).valid_slot(s) ==>
            ((#[trigger] final(rt).task(s)).state == old(rt).task(s).state
                || crate::task::state_transition_allowed(old(rt).task(s).state,
                    final(rt).task(s).state)),
{
    let cur = current_ptr(rt, cpu);
    let mut t = rt.tasks[cur];
    t.state = TaskState::Blocking;
    t.location = Location::Parking(cpu, q);
    rt.tasks[cur] = t;
    rt.block_queues[q].waiters.push(cur);
    proof {
        rt.lemma_park_wf(*old(rt), cpu, q);
    }
}

impl Runtime {
    /// Well-formedness bookkeeping for waking a parked task: it leaves its
    /// block queue (when it was in one), turns runnable and joins the local
    /// ready queue of the waking CPU.
    proof fn lemma_wake_enqueue_wf(&self, o: Runtime, cpu: usize, slot: usize, q: usize,
        idx: int, from_queue: bool)
        requires
            o.wf(),
            o.proc_ok(cpu),
            o.valid_slot(slot),
            o.task(slot).state is Blocked,
            from_queue ==> {
                &&& o.task(slot).location == Location::Parked(q)
                &&& o.valid_queue(q)
                &&& 0 <= idx < o.bq(q as int).len()
                &&& o.bq(q as int)[idx] == slot
                &&& self.bq(q as int) == o.bq(q as int).remove(idx)
                &&& (forall|qq: int| 0 <= qq < o.block_queues@.len() && qq != q ==>
                    #[trigger] self.bq(qq) == o.bq(qq))
            },
            !from_queue ==> {
                &&& o.task(slot).location == Location::Detached
                &&& o.task(slot).is_original
                &&& self.block_queues@ == o.block_queues@
            },
            self.block_queues@.len() == o.block_queues@.len(),
            self.tasks@ == o.tasks@.update(slot as int, self.task(slot)),
            self.task(slot) == (Task {
                state: TaskState::Runnable,
                location: Location::ReadyLocal(cpu),
                ..o.task(slot)
            }),
            self.processors@.len() == o.processors@.len(),
            forall|c: usize| (c as int) < o.processors@.len() && c != cpu ==>
                #[trigger] self.processors@[c as int] == o.processors@[c as int],
            self.proc_ok(cpu),
            self.proc(cpu) == (Processor {
                local_scheduler: self.proc(cpu).local_scheduler,
                ..o.proc(cpu)
            }),
            self.proc(cpu).local_scheduler.wf(),
            self.local_level(cpu, o.task(slot).priority as int)
                == o.local_level(cpu, o.task(slot).priority as int).push(slot),
            forall|l: int| 0 <= l < PRIO_LEVEL_NUM && l != o.task(slot).priority ==>
                #[trigger] self.local_level(cpu, l) == o.local_level(cpu, l),
            self.global_scheduler == o.global_scheduler,
        ensures
            self.wf(),
    {
        let n = *self;
        let pr = o.task(slot).priority as int;
        if from_queue {
            lemma_remove_props(o.bq(q as int), idx);
        }
        lemma_push_contains(o.local_level(cpu, pr), slot, slot);
        assert forall|s: usize| n.valid_slot(s) implies {
            let t = #[trigger] n.task(s);
            &&& t.id.0 == s as int + 1
            &&& t.priority < PRIO_LEVEL_NUM
            &&& n.task_location_wf(s)
            &&& (t.saved_ctx is Some ==> (t.owned_stack is Some || t.is_original))
            &&& !(t.is_idle && t.is_original)
        } by {
            assert(o.task_location_wf(s));
            if s != slot {
                assert(n.task(s) == o.task(s));
                match o.task(s).location {
                    Location::ReadyLocal(c) => {
                        let l = o.task(s).priority as int;
                        if c == cpu {
                            if l == pr {
                                lemma_push_contains(o.local_level(cpu, l), slot, s);
                            }
                            assert(n.local_level(cpu, l).contains(s));
                        }
                    },
                    Location::Parking(c, qq) => {
                        if from_queue && qq == q {
                            assert(o.bq(q as int).contains(s));
                            assert(s != slot);
                            assert(n.bq(q as int).contains(s));
                        } else {
                            assert(n.bq(qq as int) == o.bq(qq as int));
                        }
                    },
                    Location::Parked(qq) => {
                        if from_queue && qq == q {
                            assert(o.bq(q as int).contains(s));
                            assert(s != slot);
                            assert(n.bq(q as int).contains(s));
                        } else {
                            assert(n.bq(qq as int) == o.bq(qq as int));
                        }
                    },
                    _ => {},
                }
            } else {
                assert(n.local_level(cpu, pr).contains(slot));
                assert(!n.task(slot).is_idle);
            }
        }
        assert(n.tasks_wf());
        assert forall|c: usize| #[trigger] n.proc_ok(c) implies n.proc_wf(c) by {
            assert(o.proc_ok(c));
            assert(o.proc_wf(c));
            assert(o.proc(c).current_task != slot);
            assert(o.proc(c).idle_task != slot);
            assert(n.task(o.proc(c).original_task).is_original);
        }
        assert forall|c: usize, l: int, i: int|
            n.proc_ok(c) && 0 <= l < PRIO_LEVEL_NUM && 0 <= i < n.local_level(c, l).len()
            implies {
                let s = #[trigger] n.local_level(c, l)[i];
                &&& n.valid_slot(s)
                &&& n.task(s).location == Location::ReadyLocal(c)
                &&& n.task(s).priority == l
            } by {
            assert(o.proc_ok(c));
            if c == cpu && l == pr && i == n.local_level(c, l).len() - 1 {
                assert(n.local_level(c, l)[i] == slot);
            } else {
                assert(n.local_level(c, l)[i] == o.local_level(c, l)[i]);
                let s = o.local_level(c, l)[i];
                assert(o.task(s).location == Location::ReadyLocal(c));
                assert(s != slot);
            }
        }
        assert forall|l: int, i: int|
            0 <= l < PRIO_LEVEL_NUM && 0 <= i < n.global_level(l).len()
            implies {
                let s = #[trigger] n.global_level(l)[i];
                &&& n.valid_slot(s)
                &&& n.task(s).location == Location::ReadyGlobal
                &&& n.task(s).priority == l
            } by {
            assert(o.global_level(l)[i] == n.global_level(l)[i]);
            let s = o.global_level(l)[i];
            assert(o.task(s).location == Location::ReadyGlobal);
            assert(s != slot);
        }
        assert forall|qq: int, i: int|
            0 <= qq < n.block_queues@.len() && 0 <= i < n.bq(qq).len()
            implies {
                let s = #[trigger] n.bq(qq)[i];
                &&& n.valid_slot(s)
                &&& (n.task(s).location == Location::Parked(qq as usize)
                    || (n.task(s).location matches Location::Parking(_, q2) && q2 == qq))
            } by {
            if from_queue && qq == q {
                assert(n.bq(qq).contains(n.bq(qq)[i]));
                let s = n.bq(qq)[i];
                assert(o.bq(qq).contains(s) && s != slot);
                let j = choose|j: int| 0 <= j < o.bq(qq).len() && o.bq(qq)[j] == s;
                assert(o.bq(qq)[j] == s);
            } else {
                assert(n.bq(qq) == o.bq(qq));
                assert(o.bq(qq)[i] == n.bq(qq)[i]);
                let s = o.bq(qq)[i];
                assert(o.task(s).location == Location::Parked(qq as usize)
                    || (o.task(s).location matches Location::Parking(_, q2) && q2 == qq));
                if s == slot {
                    if from_queue {
                        lemma_vec_len_bound(&o.block_queues);
                        assert(o.task(slot).location == Location::Parked(q));
                        assert(o.task(slot).location == Location::Parked(qq as usize)
                            || (o.task(slot).location matches Location::Parking(_, q2)
                                && q2 == qq));
                        assert(q == qq as usize);
                        assert((qq as usize) as int == qq);
                        assert(false);
                    } else {
                        assert(o.task(slot).location == Location::Detached);
                        assert(false);
                    }
                }
                assert(s != slot);
            }
        }
        assert forall|c: usize, l: int|
            n.proc_ok(c) && 0 <= l < PRIO_LEVEL_NUM
            implies (#[trigger] n.local_level(c, l)).no_duplicates() by {
            assert(o.proc_ok(c));
            assert(o.local_level(c, l).no_duplicates());
            if c == cpu && l == pr {
                assert(!o.local_level(cpu, l).contains(slot)) by {
                    if o.local_level(cpu, l).contains(slot) {
                        let i = choose|i: int| 0 <= i < o.local_level(cpu, l).len()
                            && o.local_level(cpu, l)[i] == slot;
                        assert(o.task(slot).location == Location::ReadyLocal(cpu));
                    }
                }
                let fin = n.local_level(cpu, l);
                let mid = o.local_level(cpu, l);
                assert forall|i: int, j: int|
                    0 <= i < fin.len() && 0 <= j < fin.len() && i != j
                    implies fin[i] != fin[j] by {
                    if j == fin.len() - 1 {
                        assert(fin[j] == slot);
                        if i < j {
                            assert(mid[i] == fin[i]);
                            assert(mid.contains(mid[i]));
                        }
                    } else if i == fin.len() - 1 {
                        assert(fin[i] == slot);
                        assert(mid[j] == fin[j]);
                        assert(mid.contains(mid[j]));
                    } else {
                        assert(mid[i] == fin[i] && mid[j] == fin[j]);
                    }
                }
            }
        }
        assert forall|l: int| 0 <= l < PRIO_LEVEL_NUM
            implies (#[trigger] n.global_level(l)).no_duplicates() by {
            assert(o.global_level(l).no_duplicates());
        }
        assert forall|qq: int| 0 <= qq < n.block_queues@.len()
            implies (#[trigger] n.bq(qq)).no_duplicates() by {
            assert(o.bq(qq).no_duplicates());
            if from_queue && qq == q {
                lemma_remove_props(o.bq(qq), idx);
            } else {
                assert(n.bq(qq) == o.bq(qq));
            }
        }
        assert(n.wf());
    }

    /// Well-formedness bookkeeping for waking a parked task into the
    /// shared global queue: it leaves its block queue, turns runnable and
    /// joins the global ready queue.
    proof fn lemma_wake_enqueue_global_wf(&self, o: Runtime, slot: usize, q: usize,
        idx: int)
        requires
            o.wf(),
            o.valid_slot(slot),
            o.task(slot).state is Blocked,
            o.task(slot).location == Location::Parked(q),
            o.valid_queue(q),
            0 <= idx < o.bq(q as int).len(),
            o.bq(q as int)[idx] == slot,
            self.bq(q as int) == o.bq(q as int).remove(idx),
            forall|qq: int| 0 <= qq < o.block_queues@.len() && qq != q ==>
                #[trigger] self.bq(qq) == o.bq(qq),
            self.block_queues@.len() == o.block_queues@.len(),
            self.tasks@ == o.tasks@.update(slot as int, self.task(slot)),
            self.task(slot) == (Task {
                state: TaskState::Runnable,
                location: Location::ReadyGlobal,
                ..o.task(slot)
            }),
            self.processors@ == o.processors@,
            self.global_level(o.task(slot).priority as int)
                == o.global_level(o.task(slot).priority as int).push(slot),
            forall|l: int| 0 <= l < PRIO_LEVEL_NUM && l != o.task(slot).priority ==>
                #[trigger] self.global_level(l) == o.global_level(l),
            self.global_scheduler.wf(),
        ensures
            self.wf(),
    {
        let n = *self;
        let pr = o.task(slot).priority as int;
        lemma_remove_props(o.bq(q as int), idx);
        lemma_push_contains(o.global_level(pr), slot, slot);
        assert forall|s: usize| n.valid_slot(s) implies {
            let t = #[trigger] n.task(s);
            &&& t.id.0 == s as int + 1
            &&& t.priority < PRIO_LEVEL_NUM
            &&& n.task_location_wf(s)
            &&& (t.saved_ctx is Some ==> (t.owned_stack is Some || t.is_original))
            &&& !(t.is_idle && t.is_original)
        } by {
            assert(o.task_location_wf(s));
            if s != slot {
                assert(n.task(s) == o.task(s));
                match o.task(s).location {
                    Location::ReadyGlobal => {
                        let l = o.task(s).priority as int;
                        if l == pr {
                            lemma_push_contains(o.global_level(l), slot, s);
                        }
                        assert(n.global_level(l).contains(s));
                    },
                    Location::Parking(c, qq) => {
                        if qq == q {
                            assert(o.bq(q as int).contains(s));
                            assert(s != slot);
                            assert(n.bq(q as int).contains(s));
                        } else {
                            assert(n.bq(qq as int) == o.bq(qq as int));
                        }
                    },
                    Location::Parked(qq) => {
                        if qq == q {
                            assert(o.bq(q as int).contains(s));
                            assert(s != slot);
                            assert(n.bq(q as int).contains(s));
                        } else {
                            assert(n.bq(qq as int) == o.bq(qq as int));
                        }
                    },
                    _ => {},
                }
            } else {
                assert(n.global_level(pr).contains(slot));
                assert(!n.task(slot).is_idle);
            }
        }
        assert(n.tasks_wf());
        assert forall|c: usize| #[trigger] n.proc_ok(c) implies n.proc_wf(c) by {
            assert(o.proc_ok(c));
            assert(o.proc_wf(c));
            assert(o.proc(c).current_task != slot);
            assert(o.proc(c).idle_task != slot);
            assert(n.task(o.proc(c).original_task).is_original);
        }
        assert forall|c: usize, l: int, i: int|
            n.proc_ok(c) && 0 <= l < PRIO_LEVEL_NUM && 0 <= i < n.local_level(c, l).len()
            implies {
                let s = #[trigger] n.local_level(c, l)[i];
                &&& n.valid_slot(s)
                &&& n.task(s).location == Location::ReadyLocal(c)
                &&& n.task(s).priority == l
            } by {
            assert(o.proc_ok(c));
            assert(n.local_level(c, l)[i] == o.local_level(c, l)[i]);
            let s = o.local_level(c, l)[i];
            assert(o.task(s).location == Location::ReadyLocal(c));
            assert(s != slot);
        }
        assert forall|l: int, i: int|
            0 <= l < PRIO_LEVEL_NUM && 0 <= i < n.global_level(l).len()
            implies {
                let s = #[trigger] n.global_level(l)[i];
                &&& n.valid_slot(s)
                &&& n.task(s).location == Location::ReadyGlobal
                &&& n.task(s).priority == l
            } by {
            if l == pr && i == n.global_level(l).len() - 1 {
                assert(n.global_level(l)[i] == slot);
            } else {
                assert(n.global_level(l)[i] == o.global_level(l)[i]);
                let s = o.global_level(l)[i];
                assert(o.task(s).location == Location::ReadyGlobal);
                assert(s != slot);
            }
        }
        assert forall|qq: int, i: int|
            0 <= qq < n.block_queues@.len() && 0 <= i < n.bq(qq).len()
            implies {
                let s = #[trigger] n.bq(qq)[i];
                &&& n.valid_slot(s)
                &&& (n.task(s).location == Location::Parked(qq as usize)
                    || (n.task(s).location matches Location::Parking(_, q2) && q2 == qq))
            } by {
            if qq == q {
                assert(n.bq(qq).contains(n.bq(qq)[i]));
                let s = n.bq(qq)[i];
                assert(o.bq(qq).contains(s) && s != slot);
                let j = choose|j: int| 0 <= j < o.bq(qq).len() && o.bq(qq)[j] == s;
                assert(o.bq(qq)[j] == s);
            } else {
                assert(n.bq(qq) == o.bq(qq));
                assert(o.bq(qq)[i] == n.bq(qq)[i]);
                let s = o.bq(qq)[i];
                assert(o.task(s).location == Location::Parked(qq as usize)
                    || (o.task(s).location matches Location::Parking(_, q2) && q2 == qq));
                if s == slot {
                    lemma_vec_len_bound(&o.block_queues);
                    assert(o.task(slot).location == Location::Parked(q));
                    assert(o.task(slot).location == Location::Parked(qq as usize)
                        || (o.task(slot).location matches Location::Parking(_, q2)
                            && q2 == qq));
                    assert(q == qq as usize);
                    assert((qq as usize) as int == qq);
                    assert(false);
                }
                assert(s != slot);
            }
        }
        assert forall|c: usize, l: int|
            n.proc_ok(c) && 0 <= l < PRIO_LEVEL_NUM
            implies (#[trigger] n.local_level(c, l)).no_duplicates() by {
            assert(o.proc_ok(c));
            assert(o.local_level(c, l).no_duplicates());
        }
        assert forall|l: int| 0 <= l < PRIO_LEVEL_NUM
            implies (#[trigger] n.global_level(l)).no_duplicates() by {
            assert(o.global_level(l).no_duplicates());
            if l == pr {
                assert(!o.global_level(l).contains(slot)) by {
                    if o.global_level(l).contains(slot) {
                        let i = choose|i: int| 0 <= i < o.global_level(l).len()
                            && o.global_level(l)[i] == slot;
                        assert(o.task(slot).location == Location::ReadyGlobal);
                    }
                }
                let fin = n.global_level(l);
                let mid = o.global_level(l);
                assert forall|i: int, j: int|
                    0 <= i < fin.len() && 0 <= j < fin.len() && i != j
                    implies fin[i] != fin[j] by {
                    if j == fin.len() - 1 {
                        assert(fin[j] == slot);
                        if i < j {
                            assert(mid[i] == fin[i]);
                            assert(mid.contains(mid[i]));
                        }
                    } else if i == fin.len() - 1 {
                        assert(fin[i] == slot);
                        assert(mid[j] == fin[j]);
                        assert(mid.contains(mid[j]));
                    } else {
                        assert(mid[i] == fin[i] && mid[j] == fin[j]);
                    }
                }
            }
        }
        assert forall|qq: int| 0 <= qq < n.block_queues@.len()
            implies (#[trigger] n.bq(qq)).no_duplicates() by {
            assert(o.bq(qq).no_duplicates());
            if qq == q {
                lemma_remove_props(o.bq(qq), idx);
            } else {
                assert(n.bq(qq) == o.bq(qq));
            }
        }
        assert(n.wf());
    }

    /// Well-formedness bookkeeping for a wake that races the blocking
    /// window: the task leaves the block queue and simply stays running on
    /// its own CPU.
    proof fn lemma_wake_racing_wf(&self, o: Runtime, slot: usize, c: usize, q: usize, idx: int)
        requires
            o.wf(),
            o.valid_slot(slot),
            o.task(slot).state is Blocking,
            o.task(slot).location == Location::Parking(c, q),
            o.valid_queue(q),
            0 <= idx < o.bq(q as int).len(),
            o.bq(q as int)[idx] == slot,
            self.bq(q as int) == o.bq(q as int).remove(idx),
            forall|qq: int| 0 <= qq < o.block_queues@.len() && qq != q ==>
                #[trigger] self.bq(qq) == o.bq(qq),
            self.block_queues@.len() == o.block_queues@.len(),
            self.tasks@ == o.tasks@.update(slot as int, self.task(slot)),
            self.task(slot) == (Task {
                state: TaskState::Runnable,
                location: Location::Running(c),
                ..o.task(slot)
            }),
            self.processors@ == o.processors@,
            self.global_scheduler == o.global_scheduler,
        ensures
            self.wf(),
    {
        let n = *self;
        lemma_remove_props(o.bq(q as int), idx);
        assert forall|s: usize| n.valid_slot(s) implies {
            let t = #[trigger] n.task(s);
            &&& t.id.0 == s as int + 1
            &&& t.priority < PRIO_LEVEL_NUM
            &&& n.task_location_wf(s)
            &&& (t.saved_ctx is Some ==> (t.owned_stack is Some || t.is_original))
            &&& !(t.is_idle && t.is_original)
        } by {
            assert(o.task_location_wf(s));
            if s != slot {
                assert(n.task(s) == o.task(s));
                match o.task(s).location {
                    Location::Parking(cc, qq) => {
                        if qq == q {
                            assert(o.bq(q as int).contains(s) && s != slot);
                            assert(n.bq(q as int).contains(s));
                        } else {
                            assert(n.bq(qq as int) == o.bq(qq as int));
                        }
                    },
                    Location::Parked(qq) => {
                        if qq == q {
                            assert(o.bq(q as int).contains(s) && s != slot);
                            assert(n.bq(q as int).contains(s));
                        } else {
                            assert(n.bq(qq as int) == o.bq(qq as int));
                        }
                    },
                    _ => {},
                }
            } else {
                assert(o.proc(c).current_task == slot);
                assert(n.proc(c) == o.proc(c));
            }
        }
        assert(n.tasks_wf());
        assert forall|cc: usize| #[trigger] n.proc_ok(cc) implies n.proc_wf(cc) by {
            assert(o.proc_ok(cc));
            assert(o.proc_wf(cc));
            assert(n.task(o.proc(cc).idle_task).is_idle
                == o.task(o.proc(cc).idle_task).is_idle);
            assert(n.task(o.proc(cc).original_task).is_original
                == o.task(o.proc(cc).original_task).is_original);
            if o.proc(cc).current_task == slot {
                assert(cc == c);
                assert(n.task(slot).location == Location::Running(c));
            }
        }
        assert forall|cc: usize, l: int, i: int|
            n.proc_ok(cc) && 0 <= l < PRIO_LEVEL_NUM && 0 <= i < n.local_level(cc, l).len()
            implies {
                let s = #[trigger] n.local_level(cc, l)[i];
                &&& n.valid_slot(s)
                &&& n.task(s).location == Location::ReadyLocal(cc)
                &&& n.task(s).priority == l
            } by {
            assert(o.proc_ok(cc));
            assert(o.local_level(cc, l)[i] == n.local_level(cc, l)[i]);
            let s = o.local_level(cc, l)[i];
            assert(o.task(s).location == Location::ReadyLocal(cc));
            assert(s != slot);
        }
        assert forall|l: int, i: int|
            0 <= l < PRIO_LEVEL_NUM && 0 <= i < n.global_level(l).len()
            implies {
                let s = #[trigger] n.global_level(l)[i];
                &&& n.valid_slot(s)
                &&& n.task(s).location == Location::ReadyGlobal
                &&& n.task(s).priority == l
            } by {
            assert(o.global_level(l)[i] == n.global_level(l)[i]);
            let s = o.global_level(l)[i];
            assert(o.task(s).location == Location::ReadyGlobal);
            assert(s != slot);
        }
        assert forall|qq: int, i: int|
            0 <= qq < n.block_queues@.len() && 0 <= i < n.bq(qq).len()
            implies {
                let s = #[trigger] n.bq(qq)[i];
                &&& n.valid_slot(s)
                &&& (n.task(s).location == Location::Parked(qq as usize)
                    || (n.task(s).location matches Location::Parking(_, q2) && q2 == qq))
            } by {
            if qq == q {
                assert(n.bq(qq).contains(n.bq(qq)[i]));
                let s = n.bq(qq)[i];
                assert(o.bq(qq).contains(s) && s != slot);
                let j = choose|j: int| 0 <= j < o.bq(qq).len() && o.bq(qq)[j] == s;
                assert(o.bq(qq)[j] == s);
            } else {
                assert(n.bq(qq) == o.bq(qq));
                assert(o.bq(qq)[i] == n.bq(qq)[i]);
                let s = o.bq(qq)[i];
                assert(o.task(s).location == Location::Parked(qq as usize)
                    || (o.task(s).location matches Location::Parking(_, q2) && q2 == qq));
                assert(s != slot);
            }
        }
        assert forall|cc: usize, l: int|
            n.proc_ok(cc) && 0 <= l < PRIO_LEVEL_NUM
            implies (#[trigger] n.local_level(cc, l)).no_duplicates() by {
            assert(o.proc_ok(cc));
            assert(o.local_level(cc, l).no_duplicates());
        }
        assert forall|l: int| 0 <= l < PRIO_LEVEL_NUM
            implies (#[trigger] n.global_level(l)).no_duplicates() by {
            assert(o.global_level(l).no_duplicates());
        }
        assert forall|qq: int| 0 <= qq < n.block_queues@.len()
            implies (#[trigger] n.bq(qq)).no_duplicates() by {
            assert(o.bq(qq).no_duplicates());
            if qq == q {
                lemma_remove_props(o.bq(qq), idx);
            } else {
                assert(n.bq(qq) == o.bq(qq));
            }
        }
        assert(n.wf());
    }
}

impl Runtime {
    /// Finds the position of a waiter in a block queue.
    fn find_waiter(&self, q: usize, slot: usize) -> (idx: usize)
        requires
            self.valid_queue(q),
            self.bq(q as int).contains(slot),
        ensures
            idx < self.bq(q as int).len(),
            self.bq(q as int)[idx as int] == slot,
    {
        let mut i: usize = 0;
        let len = self.block_queues[q].waiters.len();
        while i < len
            invariant
                i <= len,
                self.valid_queue(q),
                len == self.bq(q as int).len(),
                self.bq(q as int).contains(slot),
                forall|j: int| 0 <= j < i ==> self.bq(q as int)[j] != slot,
            decreases len - i,
        {
            if self.block_queues[q].waiters[i] == slot {
                return i;
            }
            i = i + 1;
        }
        proof {
            let j = choose|j: int| 0 <= j < self.bq(q as int).len()
                && self.bq(q as int)[j] == slot;
            assert(false);
        }
        unreached()
    }
}

/// Wakes a task. Under the task's state, one of three things happens: a
/// task already runnable is left alone; a task caught in its blocking
/// window (it decided to block but has not parked) is turned runnable in
/// place, withdrawn from its block queue, and keeps its CPU; a parked task
/// is withdrawn from its block queue, turned runnable and enqueued on the
/// waking CPU's local ready queue. Waking an exited task is forbidden.
pub fn wakeup(rt: &mut Runtime, cpu: usize, slot: usize)
    requires
        old(rt).wf(),
        old(rt).proc_ok(cpu),
        old(rt).valid_slot(slot),
        !(old(rt).task(slot).state is Exited),
    ensures
        final(rt).wf(),
        final(rt).proc_ok(cpu),
        old(rt).task(slot).state is Runnable ==> *final(rt) == *old(rt),
        old(rt).task(slot).state is Blocking ==> {
            &&& final(rt).task(slot).state is Runnable
            &&& final(rt).task(slot).location is Running
            &&& (old(rt).task(slot).location matches Location::Parking(_, q) ==> {
                &&& !final(rt).bq(q as int).contains(slot)
                &&& final(rt).bq(q as int).len() == old(rt).bq(q as int).len() - 1
            })
        },
        old(rt).task(slot).state is Blocked ==> {
            &&& final(rt).task(slot) == (Task {
                state: TaskState::Runnable,
                location: Location::ReadyLocal(cpu),
                ..old(rt).task(slot)
            })
            &&& final(rt).local_level(cpu, old(rt).task(slot).priority as int)
                == old(rt).local_level(cpu, old(rt).task(slot).priority as int).push(slot)
            &&& (old(rt).task(slot).location matches Location::Parked(q) ==> {
                &&& !final(rt).bq(q as int).contains(slot)
                &&& final(rt).bq(q as int).len() == old(rt).bq(q as int).len() - 1
            })
        },
        forall|s: usize| old(rt).valid_slot(s) && s != slot ==>
            #[trigger] final(rt).task(s) == old(rt).task(s),
        final(rt).tasks@.len() == old(rt).tasks@.len(),
        forall|c: usize| old(rt).proc_ok(c) ==>
            final(rt).proc_ok(c) && final(rt).current_of(c) == old(rt).current_of(c),
        final(rt).task(slot).state is Runnable,
        final(rt).block_queues@.len() == old(rt).block_queues@.len(),
        final(rt).global_scheduler == old(rt).global_scheduler,
        forall|s: usize| old(rt).valid_slot(s) ==>
            ((#[trigger] final(rt).task(s)).state == old(rt).task(s).state
                || crate::task::state_transition_allowed(old(rt).task(s).state,
                    final(rt).task(s).state)),
{
    let t = rt.tasks[slot];
    match t.state {
        TaskState::Runnable => {},
        TaskState::Blocking => {
            proof {
                assert(old(rt).task_location_wf(slot));
            }
            match t.location {
                Location::Parking(c, q) => {
                    let idx = rt.find_waiter(q, slot);
                    rt.block_queues[q].waiters.remove(idx);
                    let mut t2 = t;
                    t2.state = TaskState::Runnable;
                    t2.location = Location::Running(c);
                    rt.tasks[slot] = t2;
                    proof {
                        rt.lemma_wake_racing_wf(*old(rt), slot, c, q, idx as int);
                        lemma_remove_props(old(rt).bq(q as int), idx as int);
                    }
                },
                Location::Running(c) => {
                    let mut t2 = t;
                    t2.state = TaskState::Runnable;
                    rt.tasks[slot] = t2;
                    proof {
                        rt.lemma_update_task_wf(*old(rt), slot, c);
                    }
                },
                _ => {},
            }
        },
        TaskState::Blocked => {
            proof {
                assert(old(rt).task_location_wf(slot));
            }
            match t.location {
                Location::Parked(q) => {
                    let idx = rt.find_waiter(q, slot);
                    rt.block_queues[q].waiters.remove(idx);
                    let mut t2 = t;
                    t2.state = TaskState::Runnable;
                    t2.location = Location::ReadyLocal(cpu);
                    rt.tasks[slot] = t2;
                    let proc_opt = rt.processors[cpu].take();
                    if let Some(mut p) = proc_opt {
                        p.local_scheduler.add_task(slot, t2.priority);
                        rt.processors[cpu] = Some(p);
                    }
                    proof {
                        rt.lemma_wake_enqueue_wf(*old(rt), cpu, slot, q, idx as int, true);
                        lemma_remove_props(old(rt).bq(q as int), idx as int);
                    }
                },
                Location::Detached => {
                    let mut t2 = t;
                    t2.state = TaskState::Runnable;
                    t2.location = Location::ReadyLocal(cpu);
                    rt.tasks[slot] = t2;
                    let proc_opt = rt.processors[cpu].take();
                    if let Some(mut p) = proc_opt {
                        p.local_scheduler.add_task(slot, t2.priority);
                        rt.processors[cpu] = Some(p);
                    }
                    proof {
                        rt.lemma_wake_enqueue_wf(*old(rt), cpu, slot, 0, 0, false);
                    }
                },
                _ => {},
            }
        },
        TaskState::Exited => {},
    }
}

impl Runtime {
    /// The pick decision depends only on the queues and the idle slot, so
    /// it is unchanged by edits to task fields, the stack pool or counters.
    proof fn lemma_hints_stable(&self, o: Runtime, cpu: usize)
        requires
            o.proc_ok(cpu),
            self.proc_ok(cpu),
            self.proc(cpu).local_scheduler == o.proc(cpu).local_scheduler,
            self.global_scheduler == o.global_scheduler,
            self.proc(cpu).idle_task == o.proc(cpu).idle_task,
        ensures
            self.spec_local_hint(cpu) == o.spec_local_hint(cpu),
            self.spec_global_hint() == o.spec_global_hint(),
            self.spec_both_empty(cpu) == o.spec_both_empty(cpu),
            self.spec_picks_local(cpu) == o.spec_picks_local(cpu),
            self.spec_picked_slot(cpu) == o.spec_picked_slot(cpu),
            forall|l: int| #[trigger] self.local_level(cpu, l) == o.local_level(cpu, l),
            forall|l: int| #[trigger] self.global_level(l) == o.global_level(l),
    {
    }

    /// Captures the current task's register frame and hands it the stack
    /// it was running on, pulling a fresh transit stack for the scheduler
    /// to continue on. This is what the context-save primitive does before
    /// it tail-calls the scheduler.
    fn save_current_context(&mut self, cpu: usize, frame: TaskContext)
        requires
            old(self).wf(),
            old(self).proc_ok(cpu),
            old(self).task(old(self).current_of(cpu)).saved_ctx is None,
            old(self).task(old(self).current_of(cpu)).owned_stack is None,
            old(self).proc(cpu).stack_pool.curr_stack is Some
                || old(self).task(old(self).current_of(cpu)).is_original,
            old(self).next_stack_id < u64::MAX,
        ensures
            final(self).wf(),
            final(self).proc_ok(cpu),
            final(self).current_of(cpu) == old(self).current_of(cpu),
            final(self).task(old(self).current_of(cpu)) == (Task {
                saved_ctx: Some(frame),
                owned_stack: old(self).proc(cpu).stack_pool.curr_stack,
                ..old(self).task(old(self).current_of(cpu))
            }),
            forall|s: usize| old(self).valid_slot(s) && s != old(self).current_of(cpu) ==>
                #[trigger] final(self).task(s) == old(self).task(s),
            final(self).tasks@.len() == old(self).tasks@.len(),
            forall|c: usize| (c as int) < old(self).processors@.len() && c != cpu ==>
                #[trigger] final(self).processors@[c as int]
                    == old(self).processors@[c as int],
            final(self).processors@.len() == old(self).processors@.len(),
            final(self).proc(cpu) == (Processor {
                stack_pool: final(self).proc(cpu).stack_pool,
                ..old(self).proc(cpu)
            }),
            final(self).proc(cpu).stack_pool.curr_stack is Some,
            old(self).next_stack_id <= final(self).next_stack_id,
            final(self).next_stack_id <= old(self).next_stack_id + 1,
            final(self).global_scheduler == old(self).global_scheduler,
            final(self).block_queues@ == old(self).block_queues@,
    {
        let cur = current_ptr(self, cpu);
        let proc_opt = self.processors[cpu].take();
        let old_curr: Option<u64>;
        if let Some(mut p) = proc_opt {
            let transit = p.stack_pool.fetch(&mut self.next_stack_id);
            old_curr = p.stack_pool.swap_curr_stack(Some(transit));
            self.processors[cpu] = Some(p);
        } else {
            old_curr = unreached();
        }
        let mut t = self.tasks[cur];
        t.saved_ctx = Some(frame);
        t.owned_stack = old_curr;
        self.tasks[cur] = t;
        proof {
            self.lemma_update_task_wf(*old(self), cur, cpu);
        }
    }
}

/// Voluntarily yields the CPU, putting the current task back into this
/// CPU's local ready queue: the thread path, which saves the caller's
/// register frame so the task can later be resumed exactly where it was.
/// When nothing else is runnable the switch collapses and the very frame
/// that was saved comes straight back to be reloaded.
pub fn yield_current_to_local(rt: &mut Runtime, cpu: usize, frame: TaskContext)
    -> (action: SwitchAction)
    requires
        old(rt).wf(),
        old(rt).proc_ok(cpu),
        old(rt).task(old(rt).current_of(cpu)).state is Runnable,
        old(rt).task(old(rt).current_of(cpu)).saved_ctx is None,
        old(rt).task(old(rt).current_of(cpu)).owned_stack is None,
        old(rt).proc(cpu).stack_pool.curr_stack is Some
            || old(rt).task(old(rt).current_of(cpu)).is_original,
        old(rt).next_stack_id < u64::MAX,
    ensures
        final(rt).wf(),
        final(rt).proc_ok(cpu),
        old(rt).spec_both_empty(cpu) ==> {
            &&& action == SwitchAction::LoadContext(frame)
            &&& final(rt).current_of(cpu) == old(rt).current_of(cpu)
            &&& final(rt).task(old(rt).current_of(cpu)).state is Runnable
            &&& final(rt).task(old(rt).current_of(cpu)).owned_stack is None
        },
        !old(rt).spec_both_empty(cpu) ==> {
            let cur = old(rt).current_of(cpu);
            let nxt = old(rt).spec_picked_slot(cpu);
            &&& final(rt).current_of(cpu) == nxt
            &&& final(rt).task(nxt).state is Runnable
            &&& final(rt).task(nxt).location == Location::Running(cpu)
            &&& final(rt).task(cur).state is Runnable
            &&& final(rt).task(cur).saved_ctx == Some(frame)
            // the suspended task takes the very stack it was running on
            &&& final(rt).task(cur).owned_stack == old(rt).proc(cpu).stack_pool.curr_stack
            &&& (!old(rt).task(cur).is_idle ==>
                final(rt).task(cur).location == Location::ReadyLocal(cpu))
            &&& (match old(rt).task(nxt).saved_ctx {
                Some(f) => action == SwitchAction::LoadContext(f),
                None => action == SwitchAction::Poll,
            })
        },
        final(rt).proc(cpu).stack_pool.curr_stack is Some,
        forall|s: usize| old(rt).valid_slot(s) && old(rt).task(s).state is Exited ==>
            (#[trigger] final(rt).task(s)).state is Exited,
        forall|s: usize| old(rt).valid_slot(s) ==> {
            &&& (#[trigger] final(rt).task(s)).id == old(rt).task(s).id
            &&& final(rt).task(s).exit_code == old(rt).task(s).exit_code
            &&& final(rt).task(s).preempt_disable_count
                == old(rt).task(s).preempt_disable_count
        },
        final(rt).tasks@.len() == old(rt).tasks@.len(),
        forall|s: usize| old(rt).valid_slot(s) ==>
            ((#[trigger] final(rt).task(s)).state == old(rt).task(s).state
                || crate::task::state_transition_allowed(old(rt).task(s).state,
                    final(rt).task(s).state)),
{
    let ghost o = *old(rt);
    rt.save_current_context(cpu, frame);
    let ghost o1 = *rt;
    proof {
        o1.lemma_hints_stable(o, cpu);
        assert(o1.spec_collapse(cpu) == o.spec_collapse(cpu));
        assert(o1.spec_next_current(cpu) == o.spec_next_current(cpu));
    }
    let action = schedule_without_sp_change(rt, cpu);
    proof {
        if o.spec_both_empty(cpu) {
            assert(o1.spec_collapse(cpu));
            assert(o1.spec_next_current(cpu) == o.current_of(cpu));
            assert(o1.task(o.current_of(cpu)).saved_ctx == Some(frame));
        } else {
            assert(o1.spec_next_current(cpu) == o.spec_picked_slot(cpu));
            assert(o1.task(o.spec_picked_slot(cpu)) == o.task(o.spec_picked_slot(cpu)));
        }
    }
    action
}

/// Voluntarily yields the CPU from a coroutine: its execution state lives
/// entirely in its future, so nothing is saved; the task is simply put
/// back into the local ready queue and the next task is picked.
pub fn yield_current_to_local_async(rt: &mut Runtime, cpu: usize) -> (action: SwitchAction)
    requires
        old(rt).wf(),
        old(rt).proc_ok(cpu),
        old(rt).task(old(rt).current_of(cpu)).state is Runnable,
    ensures
        final(rt).wf(),
        final(rt).proc_ok(cpu),
        old(rt).schedule_transition(*final(rt), cpu),
        old(rt).spec_both_empty(cpu) ==>
            final(rt).current_of(cpu) == old(rt).current_of(cpu),
        !old(rt).spec_both_empty(cpu) ==> {
            let cur = old(rt).current_of(cpu);
            let nxt = old(rt).spec_picked_slot(cpu);
            &&& final(rt).current_of(cpu) == nxt
            &&& final(rt).task(cur).state is Runnable
            &&& (!old(rt).task(cur).is_idle ==>
                final(rt).task(cur).location == Location::ReadyLocal(cpu))
            &&& (match old(rt).task(nxt).saved_ctx {
                Some(f) => action == SwitchAction::LoadContext(f),
                None => action == SwitchAction::Poll,
            })
        },
        forall|s: usize| old(rt).valid_slot(s) && old(rt).task(s).state is Exited ==>
            (#[trigger] final(rt).task(s)).state is Exited,
        final(rt).tasks@.len() == old(rt).tasks@.len(),
        forall|s: usize| old(rt).valid_slot(s) ==>
            ((#[trigger] final(rt).task(s)).state == old(rt).task(s).state
                || crate::task::state_transition_allowed(old(rt).task(s).state,
                    final(rt).task(s).state)),
{
    schedule_without_sp_change(rt, cpu)
}

/// Exits the current task with the given code: the thread path. The task
/// turns `Exited` — terminal — keeps the stack it was running on until its
/// record is dropped, and the CPU moves on to the next pick. The exit code
/// is recorded before the state flips, so anyone observing `Exited` sees
/// the final code.
pub fn exit_current(rt: &mut Runtime, cpu: usize, exit_code: i32) -> (action: SwitchAction)
    requires
        old(rt).wf(),
        old(rt).proc_ok(cpu),
        old(rt).task(old(rt).current_of(cpu)).state is Runnable,
        !old(rt).task(old(rt).current_of(cpu)).is_idle,
        old(rt).task(old(rt).current_of(cpu)).saved_ctx is None,
        old(rt).task(old(rt).current_of(cpu)).owned_stack is None,
        old(rt).proc(cpu).stack_pool.curr_stack is Some
            || old(rt).task(old(rt).current_of(cpu)).is_original,
        old(rt).next_stack_id < u64::MAX,
    ensures
        final(rt).wf(),
        final(rt).proc_ok(cpu),
        final(rt).task(old(rt).current_of(cpu)).state is Exited,
        final(rt).task(old(rt).current_of(cpu)).exit_code == exit_code,
        final(rt).task(old(rt).current_of(cpu)).location == Location::Detached,
        // the exited task keeps the stack it was running on until its
        // record is dropped
        final(rt).task(old(rt).current_of(cpu)).owned_stack
            == old(rt).proc(cpu).stack_pool.curr_stack,
        final(rt).proc(cpu).stack_pool.curr_stack is Some,
        final(rt).current_of(cpu) == old(rt).spec_picked_slot(cpu),
        final(rt).task(final(rt).current_of(cpu)).state is Runnable,
        (match old(rt).task(old(rt).spec_picked_slot(cpu)).saved_ctx {
            Some(f) => action == SwitchAction::LoadContext(f),
            None => action == SwitchAction::Poll,
        }),
        forall|s: usize| old(rt).valid_slot(s) && old(rt).task(s).state is Exited ==>
            (#[trigger] final(rt).task(s)).state is Exited,
        forall|s: usize| old(rt).valid_slot(s) ==>
            (#[trigger] final(rt).task(s)).id == old(rt).task(s).id,
        final(rt).tasks@.len() == old(rt).tasks@.len(),
        forall|s: usize| old(rt).valid_slot(s) ==>
            ((#[trigger] final(rt).task(s)).state == old(rt).task(s).state
                || crate::task::state_transition_allowed(old(rt).task(s).state,
                    final(rt).task(s).state)),
{
    let ghost o = *old(rt);
    let cur = current_ptr(rt, cpu);
    let proc_opt = rt.processors[cpu].take();
    let old_curr: Option<u64>;
    if let Some(mut p) = proc_opt {
        let transit = p.stack_pool.fetch(&mut rt.next_stack_id);
        old_curr = p.stack_pool.swap_curr_stack(Some(transit));
        rt.processors[cpu] = Some(p);
    } else {
        old_curr = unreached();
    }
    let mut t = rt.tasks[cur];
    t.exit_code = exit_code;
    t.state = TaskState::Exited;
    t.owned_stack = old_curr;
    rt.tasks[cur] = t;
    proof {
        rt.lemma_update_task_wf(o, cur, cpu);
    }
    let ghost o1 = *rt;
    proof {
        o1.lemma_hints_stable(o, cpu);
        assert(!o1.spec_collapse(cpu));
        assert(o1.spec_next_current(cpu) == o.spec_picked_slot(cpu));
        o1.lemma_pick_facts(cpu);
        assert(o1.spec_next_current(cpu) != cur);
    }
    let action = schedule_without_sp_change(rt, cpu);
    proof {
        assert(o1.task(o.spec_picked_slot(cpu)) == o.task(o.spec_picked_slot(cpu)));
        assert(rt.task(cur).state == o1.spec_prev_state_after(cpu));
    }
    action
}

/// Exits the current task with the given code: the coroutine path. The
/// task's execution state was in its future, so there is no stack to hand
/// over.
pub fn exit_current_async(rt: &mut Runtime, cpu: usize, exit_code: i32) -> (action: SwitchAction)
    requires
        old(rt).wf(),
        old(rt).proc_ok(cpu),
        old(rt).task(old(rt).current_of(cpu)).state is Runnable,
        !old(rt).task(old(rt).current_of(cpu)).is_idle,
    ensures
        final(rt).wf(),
        final(rt).proc_ok(cpu),
        final(rt).task(old(rt).current_of(cpu)).state is Exited,
        final(rt).task(old(rt).current_of(cpu)).exit_code == exit_code,
        final(rt).task(old(rt).current_of(cpu)).location == Location::Detached,
        final(rt).current_of(cpu) == old(rt).spec_picked_slot(cpu),
        final(rt).task(final(rt).current_of(cpu)).state is Runnable,
        (match old(rt).task(old(rt).spec_picked_slot(cpu)).saved_ctx {
            Some(f) => action == SwitchAction::LoadContext(f),
            None => action == SwitchAction::Poll,
        }),
        forall|s: usize| old(rt).valid_slot(s) && old(rt).task(s).state is Exited ==>
            (#[trigger] final(rt).task(s)).state is Exited,
        forall|s: usize| old(rt).valid_slot(s) ==>
            (#[trigger] final(rt).task(s)).id == old(rt).task(s).id,
        final(rt).tasks@.len() == old(rt).tasks@.len(),
        forall|s: usize| old(rt).valid_slot(s) ==>
            ((#[trigger] final(rt).task(s)).state == old(rt).task(s).state
                || crate::task::state_transition_allowed(old(rt).task(s).state,
                    final(rt).task(s).state)),
{
    let ghost o = *old(rt);
    let cur = current_ptr(rt, cpu);
    let mut t = rt.tasks[cur];
    t.exit_code = exit_code;
    t.state = TaskState::Exited;
    rt.tasks[cur] = t;
    proof {
        rt.lemma_update_task_wf(o, cur, cpu);
    }
    let ghost o1 = *rt;
    proof {
        o1.lemma_hints_stable(o, cpu);
        assert(!o1.spec_collapse(cpu));
        assert(o1.spec_next_current(cpu) == o.spec_picked_slot(cpu));
        o1.lemma_pick_facts(cpu);
        assert(o1.spec_next_current(cpu) != cur);
    }
    let action = schedule_without_sp_change(rt, cpu);
    proof {
        assert(o1.task(o.spec_picked_slot(cpu)) == o.task(o.spec_picked_slot(cpu)));
    }
    action
}

/// Blocks the current task on a block queue: the thread path. The task
/// enters its blocking window, joins the queue, saves the caller's frame,
/// and the switch parks it — after which a wake finds it `Blocked` with a
/// context that is safe to resume.
pub fn block_current(rt: &mut Runtime, cpu: usize, q: usize, frame: TaskContext)
    -> (action: SwitchAction)
    requires
        old(rt).wf(),
        old(rt).proc_ok(cpu),
        old(rt).valid_queue(q),
        old(rt).task(old(rt).current_of(cpu)).state is Runnable,
        old(rt).task(old(rt).current_of(cpu)).location == Location::Running(cpu),
        !old(rt).task(old(rt).current_of(cpu)).is_idle,
        old(rt).task(old(rt).current_of(cpu)).saved_ctx is None,
        old(rt).task(old(rt).current_of(cpu)).owned_stack is None,
        old(rt).proc(cpu).stack_pool.curr_stack is Some
            || old(rt).task(old(rt).current_of(cpu)).is_original,
        old(rt).next_stack_id < u64::MAX,
        old(rt).bq(q as int).len() < usize::MAX,
    ensures
        final(rt).wf(),
        final(rt).proc_ok(cpu),
        final(rt).task(old(rt).current_of(cpu)).state is Blocked,
        final(rt).task(old(rt).current_of(cpu)).location == Location::Parked(q),
        final(rt).task(old(rt).current_of(cpu)).saved_ctx == Some(frame),
        // the parked task takes the very stack it was running on
        final(rt).task(old(rt).current_of(cpu)).owned_stack
            == old(rt).proc(cpu).stack_pool.curr_stack,
        final(rt).proc(cpu).stack_pool.curr_stack is Some,
        final(rt).bq(q as int) == old(rt).bq(q as int).push(old(rt).current_of(cpu)),
        final(rt).current_of(cpu) == old(rt).spec_picked_slot(cpu),
        final(rt).task(final(rt).current_of(cpu)).state is Runnable,
        (match old(rt).task(old(rt).spec_picked_slot(cpu)).saved_ctx {
            Some(f) => action == SwitchAction::LoadContext(f),
            None => action == SwitchAction::Poll,
        }),
        forall|s: usize| old(rt).valid_slot(s) && old(rt).task(s).state is Exited ==>
            (#[trigger] final(rt).task(s)).state is Exited,
        final(rt).tasks@.len() == old(rt).tasks@.len(),
{
    let ghost o = *old(rt);
    block_current_begin(rt, cpu, q);
    rt.save_current_context(cpu, frame);
    let ghost o1 = *rt;
    proof {
        o1.lemma_hints_stable(o, cpu);
        assert(!o1.spec_collapse(cpu));
        assert(o1.spec_next_current(cpu) == o.spec_picked_slot(cpu));
    }
    let cur = current_ptr(rt, cpu);
    proof {
        o1.lemma_pick_facts(cpu);
        assert(o1.spec_next_current(cpu) != cur);
    }
    let action = schedule_without_sp_change(rt, cpu);
    proof {
        assert(o1.task(o.spec_picked_slot(cpu)) == o.task(o.spec_picked_slot(cpu)));
        assert(rt.task(cur).state == o1.spec_prev_state_after(cpu));
        assert(rt.bq(q as int) == o1.bq(q as int));
    }
    action
}

/// Blocks the current task on a block queue: the coroutine path. The
/// future holds the execution state, so nothing is saved; the task parks
/// and a later wake re-enqueues it to be polled again.
pub fn block_current_async(rt: &mut Runtime, cpu: usize, q: usize) -> (action: SwitchAction)
    requires
        old(rt).wf(),
        old(rt).proc_ok(cpu),
        old(rt).valid_queue(q),
        old(rt).task(old(rt).current_of(cpu)).state is Runnable,
        old(rt).task(old(rt).current_of(cpu)).location == Location::Running(cpu),
        !old(rt).task(old(rt).current_of(cpu)).is_idle,
        old(rt).bq(q as int).len() < usize::MAX,
    ensures
        final(rt).wf(),
        final(rt).proc_ok(cpu),
        final(rt).task(old(rt).current_of(cpu)).state is Blocked,
        final(rt).task(old(rt).current_of(cpu)).location == Location::Parked(q),
        final(rt).bq(q as int) == old(rt).bq(q as int).push(old(rt).current_of(cpu)),
        final(rt).current_of(cpu) == old(rt).spec_picked_slot(cpu),
        final(rt).task(final(rt).current_of(cpu)).state is Runnable,
        (match old(rt).task(old(rt).spec_picked_slot(cpu)).saved_ctx {
            Some(f) => action == SwitchAction::LoadContext(f),
            None => action == SwitchAction::Poll,
        }),
        forall|s: usize| old(rt).valid_slot(s) && old(rt).task(s).state is Exited ==>
            (#[trigger] final(rt).task(s)).state is Exited,
        final(rt).tasks@.len() == old(rt).tasks@.len(),
{
    let ghost o = *old(rt);
    block_current_begin(rt, cpu, q);
    let ghost o1 = *rt;
    proof {
        o1.lemma_hints_stable(o, cpu);
        assert(!o1.spec_collapse(cpu));
        assert(o1.spec_next_current(cpu) == o.spec_picked_slot(cpu));
    }
    let cur = current_ptr(rt, cpu);
    proof {
        o1.lemma_pick_facts(cpu);
        assert(o1.spec_next_current(cpu) != cur);
    }
    let action = schedule_without_sp_change(rt, cpu);
    proof {
        assert(o1.task(o.spec_picked_slot(cpu)) == o.task(o.spec_picked_slot(cpu)));
        assert(rt.bq(q as int) == o1.bq(q as int));
    }
    action
}

/// Preempts the current task from the timer path: its trap frame becomes
/// its saved context, so resuming it later returns from the trap exactly
/// where it was interrupted. A preempted task always goes back to its own
/// CPU's local queue. Only called while preemption is enabled for the task.
pub fn preempt_current(rt: &mut Runtime, cpu: usize, frame: TaskContext)
    -> (action: SwitchAction)
    requires
        old(rt).wf(),
        old(rt).proc_ok(cpu),
        old(rt).task(old(rt).current_of(cpu)).state is Runnable,
        old(rt).task(old(rt).current_of(cpu)).preempt_disable_count == 0,
        old(rt).task(old(rt).current_of(cpu)).saved_ctx is None,
        old(rt).task(old(rt).current_of(cpu)).owned_stack is None,
        old(rt).proc(cpu).stack_pool.curr_stack is Some
            || old(rt).task(old(rt).current_of(cpu)).is_original,
        old(rt).next_stack_id < u64::MAX,
    ensures
        final(rt).wf(),
        final(rt).proc_ok(cpu),
        old(rt).spec_both_empty(cpu) ==> {
            &&& action == SwitchAction::LoadContext(frame)
            &&& final(rt).current_of(cpu) == old(rt).current_of(cpu)
        },
        !old(rt).spec_both_empty(cpu) ==> {
            let cur = old(rt).current_of(cpu);
            let nxt = old(rt).spec_picked_slot(cpu);
            &&& final(rt).current_of(cpu) == nxt
            &&& final(rt).task(cur).state is Runnable
            &&& final(rt).task(cur).saved_ctx == Some(frame)
            // the preempted task takes the stack its trap frame lives in
            &&& final(rt).task(cur).owned_stack == old(rt).proc(cpu).stack_pool.curr_stack
            &&& (!old(rt).task(cur).is_idle ==>
                final(rt).task(cur).location == Location::ReadyLocal(cpu))
            &&& (match old(rt).task(nxt).saved_ctx {
                Some(f) => action == SwitchAction::LoadContext(f),
                None => action == SwitchAction::Poll,
            })
        },
        final(rt).proc(cpu).stack_pool.curr_stack is Some,
        forall|s: usize| old(rt).valid_slot(s) && old(rt).task(s).state is Exited ==>
            (#[trigger] final(rt).task(s)).state is Exited,
        final(rt).tasks@.len() == old(rt).tasks@.len(),
        forall|s: usize| old(rt).valid_slot(s) ==>
            ((#[trigger] final(rt).task(s)).state == old(rt).task(s).state
                || crate::task::state_transition_allowed(old(rt).task(s).state,
                    final(rt).task(s).state)),
{
    yield_current_to_local(rt, cpu, frame)
}

/// Runs the per-tick scheduler accounting for the current task and reports
/// whether a reschedule is due. The static-priority policy gives every
/// task a single-tick slice, so every tick requests a reschedule; whether
/// a preemption actually happens is decided by the timer path from this
/// answer and the preemption-disable counter.
pub fn scheduler_tick_current(rt: &mut Runtime, cpu: usize) -> (r: bool)
    requires
        old(rt).wf(),
        old(rt).proc_ok(cpu),
    ensures
        final(rt).wf(),
        *final(rt) == *old(rt),
        r == true,
{
    true
}

/// Starts task execution on the main processor: spawns the initial (main)
/// task as a thread at the default priority, retires the boot execution —
/// its frame is saved so the boot flow could in principle be woken again —
/// and switches to the first pick. On a freshly initialised runtime the
/// pick is the initial task itself, resumed by polling its trampoline.
pub fn start_main_processor(rt: &mut Runtime, cpu: usize, frame: TaskContext)
    -> (action: SwitchAction)
    requires
        old(rt).wf(),
        old(rt).proc_ok(cpu),
        old(rt).task(old(rt).current_of(cpu)).is_original,
        old(rt).task(old(rt).current_of(cpu)).state is Runnable,
        old(rt).task(old(rt).current_of(cpu)).location == Location::Running(cpu),
        old(rt).task(old(rt).current_of(cpu)).saved_ctx is None,
        old(rt).task(old(rt).current_of(cpu)).owned_stack is None,
        old(rt).tasks@.len() < usize::MAX,
        old(rt).next_stack_id < u64::MAX,
    ensures
        final(rt).wf(),
        final(rt).proc_ok(cpu),
        final(rt).tasks@.len() == old(rt).tasks@.len() + 1,
        final(rt).task((old(rt).tasks@.len()) as usize).is_init,
        final(rt).task((old(rt).tasks@.len()) as usize).kind is Thread,
        final(rt).task(old(rt).current_of(cpu)).state is Blocked,
        final(rt).task(old(rt).current_of(cpu)).location == Location::Detached,
        final(rt).task(old(rt).current_of(cpu)).saved_ctx == Some(frame),
        final(rt).task(final(rt).current_of(cpu)).state is Runnable,
        final(rt).task((old(rt).tasks@.len()) as usize).state is Runnable,
        final(rt).current_of(cpu) == old(rt).tasks@.len()
            || final(rt).local_level(cpu, 0).contains((old(rt).tasks@.len()) as usize),
        final(rt).processors@.len() == old(rt).processors@.len(),
        forall|c: usize| (c as int) < old(rt).processors@.len() && c != cpu ==>
            #[trigger] final(rt).processors@[c as int] == old(rt).processors@[c as int],
        old(rt).next_stack_id <= final(rt).next_stack_id,
        final(rt).next_stack_id <= old(rt).next_stack_id + 1,
        old(rt).spec_both_empty(cpu) ==> {
            &&& final(rt).current_of(cpu) == old(rt).tasks@.len()
            &&& action == SwitchAction::Poll
        },
{
    start_processor_common(rt, cpu, frame, true, false)
}

/// Starts task execution on the main processor with a coroutine as the
/// initial task.
pub fn start_main_processor_with_async(rt: &mut Runtime, cpu: usize, frame: TaskContext)
    -> (action: SwitchAction)
    requires
        old(rt).wf(),
        old(rt).proc_ok(cpu),
        old(rt).task(old(rt).current_of(cpu)).is_original,
        old(rt).task(old(rt).current_of(cpu)).state is Runnable,
        old(rt).task(old(rt).current_of(cpu)).location == Location::Running(cpu),
        old(rt).task(old(rt).current_of(cpu)).saved_ctx is None,
        old(rt).task(old(rt).current_of(cpu)).owned_stack is None,
        old(rt).tasks@.len() < usize::MAX,
        old(rt).next_stack_id < u64::MAX,
    ensures
        final(rt).wf(),
        final(rt).proc_ok(cpu),
        final(rt).tasks@.len() == old(rt).tasks@.len() + 1,
        final(rt).task((old(rt).tasks@.len()) as usize).is_init,
        final(rt).task((old(rt).tasks@.len()) as usize).kind is Coroutine,
        final(rt).task(old(rt).current_of(cpu)).state is Blocked,
        final(rt).task(old(rt).current_of(cpu)).location == Location::Detached,
        final(rt).task(old(rt).current_of(cpu)).saved_ctx == Some(frame),
        final(rt).task(final(rt).current_of(cpu)).state is Runnable,
        final(rt).task((old(rt).tasks@.len()) as usize).state is Runnable,
        final(rt).current_of(cpu) == old(rt).tasks@.len()
            || final(rt).local_level(cpu, 0).contains((old(rt).tasks@.len()) as usize),
        final(rt).processors@.len() == old(rt).processors@.len(),
        forall|c: usize| (c as int) < old(rt).processors@.len() && c != cpu ==>
            #[trigger] final(rt).processors@[c as int] == old(rt).processors@[c as int],
        old(rt).next_stack_id <= final(rt).next_stack_id,
        final(rt).next_stack_id <= old(rt).next_stack_id + 1,
        old(rt).spec_both_empty(cpu) ==> {
            &&& final(rt).current_of(cpu) == old(rt).tasks@.len()
            &&& action == SwitchAction::Poll
        },
{
    start_processor_common(rt, cpu, frame, true, true)
}

/// Starts task execution on a secondary processor: no initial task is
/// spawned; the boot execution retires and the CPU takes whatever the two
/// tiers offer, or its idle task.
pub fn start_secondary_processor(rt: &mut Runtime, cpu: usize, frame: TaskContext)
    -> (action: SwitchAction)
    requires
        old(rt).wf(),
        old(rt).proc_ok(cpu),
        old(rt).task(old(rt).current_of(cpu)).is_original,
        old(rt).task(old(rt).current_of(cpu)).state is Runnable,
        old(rt).task(old(rt).current_of(cpu)).location == Location::Running(cpu),
        old(rt).task(old(rt).current_of(cpu)).saved_ctx is None,
        old(rt).task(old(rt).current_of(cpu)).owned_stack is None,
        old(rt).next_stack_id < u64::MAX,
        old(rt).task(old(rt).proc(cpu).idle_task).saved_ctx is None,
    ensures
        final(rt).wf(),
        final(rt).proc_ok(cpu),
        final(rt).task(old(rt).current_of(cpu)).state is Blocked,
        final(rt).task(old(rt).current_of(cpu)).location == Location::Detached,
        final(rt).task(old(rt).current_of(cpu)).saved_ctx == Some(frame),
        final(rt).task(final(rt).current_of(cpu)).state is Runnable,
        final(rt).current_of(cpu) == old(rt).spec_picked_slot(cpu),
        old(rt).spec_both_empty(cpu) ==> {
            &&& final(rt).current_of(cpu) == old(rt).proc(cpu).idle_task
            &&& action == SwitchAction::Poll
        },
        final(rt).tasks@.len() == old(rt).tasks@.len(),
        final(rt).processors@.len() == old(rt).processors@.len(),
        forall|c: usize| (c as int) < old(rt).processors@.len() && c != cpu ==>
            #[trigger] final(rt).processors@[c as int] == old(rt).processors@[c as int],
        old(rt).next_stack_id <= final(rt).next_stack_id,
        final(rt).next_stack_id <= old(rt).next_stack_id + 1,
{
    let ghost o = *old(rt);
    let cur = current_ptr(rt, cpu);
    let mut t = rt.tasks[cur];
    t.state = TaskState::Blocking;
    rt.tasks[cur] = t;
    proof {
        rt.lemma_update_task_wf(o, cur, cpu);
    }
    rt.save_current_context(cpu, frame);
    let ghost o1 = *rt;
    proof {
        o1.lemma_hints_stable(o, cpu);
        assert(!o1.spec_collapse(cpu));
        assert(o1.spec_next_current(cpu) == o.spec_picked_slot(cpu));
    }
    proof {
        o1.lemma_pick_facts(cpu);
        assert(o1.spec_next_current(cpu) != cur);
        assert(o.proc_wf(cpu));
        assert(o.proc(cpu).idle_task != cur);
    }
    let action = schedule_without_sp_change(rt, cpu);
    proof {
        assert(o1.task(o.spec_picked_slot(cpu)) == o.task(o.spec_picked_slot(cpu)));
        assert(rt.task(cur).state == o1.spec_prev_state_after(cpu));
        if o.spec_both_empty(cpu) {
            assert(o1.task(o.proc(cpu).idle_task).saved_ctx is None);
        }
    }
    action
}

/// The shared start path: optionally spawn the initial task, retire the
/// boot execution, save its frame, and switch.
fn start_processor_common(rt: &mut Runtime, cpu: usize, frame: TaskContext, spawn_init: bool,
    init_async: bool) -> (action: SwitchAction)
    requires
        old(rt).wf(),
        old(rt).proc_ok(cpu),
        old(rt).task(old(rt).current_of(cpu)).is_original,
        old(rt).task(old(rt).current_of(cpu)).state is Runnable,
        old(rt).task(old(rt).current_of(cpu)).location == Location::Running(cpu),
        old(rt).task(old(rt).current_of(cpu)).saved_ctx is None,
        old(rt).task(old(rt).current_of(cpu)).owned_stack is None,
        old(rt).tasks@.len() < usize::MAX,
        old(rt).next_stack_id < u64::MAX,
        spawn_init,
    ensures
        final(rt).wf(),
        final(rt).proc_ok(cpu),
        final(rt).tasks@.len() == old(rt).tasks@.len() + 1,
        final(rt).task((old(rt).tasks@.len()) as usize).is_init,
        final(rt).task((old(rt).tasks@.len()) as usize).kind
            == (if init_async { TaskKind::Coroutine } else { TaskKind::Thread }),
        final(rt).task(old(rt).current_of(cpu)).state is Blocked,
        final(rt).task(old(rt).current_of(cpu)).location == Location::Detached,
        final(rt).task(old(rt).current_of(cpu)).saved_ctx == Some(frame),
        final(rt).task(final(rt).current_of(cpu)).state is Runnable,
        final(rt).task((old(rt).tasks@.len()) as usize).state is Runnable,
        final(rt).current_of(cpu) == old(rt).tasks@.len()
            || final(rt).local_level(cpu, 0).contains((old(rt).tasks@.len()) as usize),
        final(rt).processors@.len() == old(rt).processors@.len(),
        forall|c: usize| (c as int) < old(rt).processors@.len() && c != cpu ==>
            #[trigger] final(rt).processors@[c as int] == old(rt).processors@[c as int],
        old(rt).next_stack_id <= final(rt).next_stack_id,
        final(rt).next_stack_id <= old(rt).next_stack_id + 1,
        old(rt).spec_both_empty(cpu) ==> {
            &&& final(rt).current_of(cpu) == old(rt).tasks@.len()
            &&& action == SwitchAction::Poll
        },
{
    let ghost o = *old(rt);
    let kind = if init_async { TaskKind::Coroutine } else { TaskKind::Thread };
    let init_slot = rt.spawn_task(cpu, kind, 0, false, true);
    let ghost oa = *rt;
    let cur = current_ptr(rt, cpu);
    let mut t = rt.tasks[cur];
    t.state = TaskState::Blocking;
    rt.tasks[cur] = t;
    proof {
        rt.lemma_update_task_wf(oa, cur, cpu);
    }
    rt.save_current_context(cpu, frame);
    let ghost o1 = *rt;
    proof {
        o1.lemma_hints_stable(oa, cpu);
        assert(!o1.spec_collapse(cpu));
        oa.proc(cpu).local_scheduler.lemma_highest_priority();
        o1.proc(cpu).local_scheduler.lemma_highest_priority();
        if o.spec_both_empty(cpu) {
            // after the spawn the only work is the initial task at the top level
            assert(oa.local_level(cpu, 0) == o.local_level(cpu, 0).push(init_slot));
            assert(o.local_level(cpu, 0).len() == 0);
            assert(oa.local_level(cpu, 0).len() == 1);
            assert(oa.spec_local_hint(cpu) == 0);
            assert(o1.spec_picks_local(cpu));
            assert(o1.spec_picked_slot(cpu) == init_slot);
        }
    }
    let action = schedule_without_sp_change(rt, cpu);
    proof {
        if o1.spec_next_current(cpu) != cur {
            assert(o1.task(o1.spec_next_current(cpu)) == oa.task(o1.spec_next_current(cpu)));
        }
        assert(rt.task(cur).state == o1.spec_prev_state_after(cpu));
        if o.spec_both_empty(cpu) {
            assert(o1.task(init_slot).saved_ctx is None);
        }
        // the initial task either took the CPU or still waits at the top
        // level of the local queue
        if rt.current_of(cpu) != init_slot {
            assert(o1.spec_next_current(cpu) != init_slot);
            assert(init_slot != cur);
            assert(rt.task(init_slot) == o1.task(init_slot));
            assert(rt.task(init_slot).location == Location::ReadyLocal(cpu));
            assert(rt.task(init_slot).priority == 0);
            assert(rt.task_location_wf(init_slot));
            assert(rt.local_level(cpu, 0).contains(init_slot));
        }
    }
    action
}

/// Filtering by a predicate every element satisfies keeps the sequence.
proof fn lemma_filter_all_id(sq: Seq<usize>, pred: spec_fn(usize) -> bool)
    requires
        forall|i: int| 0 <= i < sq.len() ==> pred(#[trigger] sq[i]),
    ensures
        sq.filter(pred) == sq,
    decreases sq.len(),
{
    reveal(Seq::filter);
    if sq.len() > 0 {
        assert(forall|i: int| 0 <= i < sq.drop_last().len()
            ==> pred(#[trigger] sq.drop_last()[i]));
        lemma_filter_all_id(sq.drop_last(), pred);
        assert(pred(sq.last()));
        assert(sq.drop_last().push(sq.last()) =~= sq);
    }
}

/// Tightening a predicate by excluding one element — one that the original
/// predicate kept, occurring at exactly one position of the filtered view —
/// removes exactly that position from the filtered view.
proof fn lemma_filter_drop_one(sq: Seq<usize>, p1: spec_fn(usize) -> bool,
    p2: spec_fn(usize) -> bool, e: usize, idx: int)
    requires
        forall|x: usize| #[trigger] p2(x) == (p1(x) && x != e),
        0 <= idx < sq.filter(p1).len(),
        sq.filter(p1)[idx] == e,
        forall|j: int| 0 <= j < sq.filter(p1).len() && j != idx ==>
            sq.filter(p1)[j] != e,
    ensures
        sq.filter(p2) == sq.filter(p1).remove(idx),
    decreases sq.len(),
{
    broadcast use vstd::seq_lib::group_filter_ensures;

    reveal(Seq::filter);
    let fl1 = sq.filter(p1);
    let fl2 = sq.filter(p2);
    assert(sq.len() > 0);
    let dl = sq.drop_last();
    let last = sq.last();
    if !p1(last) {
        assert(!p2(last));
        assert(fl1 == dl.filter(p1));
        assert(fl2 == dl.filter(p2));
        lemma_filter_drop_one(dl, p1, p2, e, idx);
    } else if last != e {
        assert(p2(last));
        assert(fl1 == dl.filter(p1).push(last));
        assert(fl2 == dl.filter(p2).push(last));
        assert(idx < dl.filter(p1).len()) by {
            if idx == fl1.len() - 1 {
                assert(fl1[idx] == last);
            }
        }
        assert(dl.filter(p1)[idx] == e);
        assert forall|j: int| 0 <= j < dl.filter(p1).len() && j != idx
            implies dl.filter(p1)[j] != e by {
            assert(fl1[j] == dl.filter(p1)[j]);
        }
        lemma_filter_drop_one(dl, p1, p2, e, idx);
        assert(fl1.remove(idx) =~= dl.filter(p1).remove(idx).push(last));
        assert(fl2 =~= fl1.remove(idx));
    } else {
        // the excluded element is the last kept one
        assert(!p2(last));
        assert(fl1 == dl.filter(p1).push(e));
        assert(fl2 == dl.filter(p2));
        assert(fl1[fl1.len() - 1] == e);
        assert(idx == fl1.len() - 1) by {
            if idx != fl1.len() - 1 {
                assert(fl1[fl1.len() - 1] != e);
            }
        }
        // it occurs nowhere earlier, so the prefix is untouched by the
        // exclusion
        assert forall|k: int| 0 <= k < dl.len()
            implies p1(#[trigger] dl[k]) == p2(dl[k]) by {
            if dl[k] == e && p1(e) {
                dl.lemma_filter_contains(p1, k);
                let j = choose|j: int| 0 <= j < dl.filter(p1).len()
                    && dl.filter(p1)[j] == e;
                assert(fl1[j] == e);
            }
        }
        lemma_filter_congruence(dl, p2, p1);
        assert(fl2 == dl.filter(p1));
        assert(fl1.remove(idx) =~= dl.filter(p1));
    }
}

/// Two predicates that agree on every element of a sequence filter it the
/// same way.
proof fn lemma_filter_congruence(sq: Seq<usize>, p1: spec_fn(usize) -> bool,
    p2: spec_fn(usize) -> bool)
    requires
        forall|i: int| 0 <= i < sq.len() ==> p1(#[trigger] sq[i]) == p2(sq[i]),
    ensures
        sq.filter(p1) == sq.filter(p2),
    decreases sq.len(),
{
    reveal(Seq::filter);
    if sq.len() > 0 {
        assert(forall|i: int| 0 <= i < sq.drop_last().len()
            ==> p1(#[trigger] sq.drop_last()[i]) == p2(sq.drop_last()[i]));
        lemma_filter_congruence(sq.drop_last(), p1, p2);
        assert(p1(sq.last()) == p2(sq.last()));
    }
}

/// When no element satisfies a predicate, filtering by its negation keeps
/// the whole sequence.
proof fn lemma_filter_neg_id(sq: Seq<usize>, pred: spec_fn(usize) -> bool)
    requires
        forall|i: int| 0 <= i < sq.len() ==> !pred(#[trigger] sq[i]),
    ensures
        sq.filter(|x: usize| !pred(x)) == sq,
    decreases sq.len(),
{
    reveal(Seq::filter);
    if sq.len() > 0 {
        assert(forall|i: int| 0 <= i < sq.drop_last().len()
            ==> !pred(#[trigger] sq.drop_last()[i]));
        lemma_filter_neg_id(sq.drop_last(), pred);
        assert(!pred(sq.last()));
        assert(sq.drop_last().push(sq.last()) =~= sq);
    }
}

impl Runtime {
    /// The predicate picking the parked waiters of this state.
    pub open spec fn spec_blocked_pred(self) -> spec_fn(usize) -> bool {
        |s: usize| self.tasks@[s as int].state is Blocked
    }

    /// The waiters of a block queue whose state is `Blocked`, in queue
    /// order: exactly the tasks a wake sweep takes.
    pub open spec fn blocked_in_queue(self, q: int) -> Seq<usize> {
        self.bq(q).filter(self.spec_blocked_pred())
    }

    /// The predicate picking the waiters a wake sweep leaves in place.
    pub open spec fn spec_stale_pred(self) -> spec_fn(usize) -> bool {
        |s: usize| !(self.tasks@[s as int].state is Blocked)
    }

    /// The waiters a wake sweep leaves in place: entries still in their
    /// blocking window.
    pub open spec fn stale_in_queue(self, q: int) -> Seq<usize> {
        self.bq(q).filter(self.spec_stale_pred())
    }

    /// Wakes the first parked waiter of a block queue, moving it to this
    /// CPU's local ready queue or to the shared global queue. Returns the
    /// woken slot, or nothing when no waiter is parked.
    fn wake_first_blocked(&mut self, cpu: usize, q: usize, to_global: bool)
        -> (r: Option<usize>)
        requires
            old(self).wf(),
            old(self).proc_ok(cpu),
            old(self).valid_queue(q),
        ensures
            final(self).wf(),
            final(self).proc_ok(cpu),
            old(self).blocked_in_queue(q as int).len() == 0 ==>
                r is None && *final(self) == *old(self),
            old(self).blocked_in_queue(q as int).len() > 0 ==> ({
                let s = old(self).blocked_in_queue(q as int)[0];
                &&& r == Some(s)
                &&& old(self).valid_slot(s)
                &&& old(self).task(s).state is Blocked
                &&& final(self).task(s) == (Task {
                    state: TaskState::Runnable,
                    location: (if to_global { Location::ReadyGlobal }
                        else { Location::ReadyLocal(cpu) }),
                    ..old(self).task(s)
                })
                &&& final(self).blocked_in_queue(q as int)
                    == old(self).blocked_in_queue(q as int).drop_first()
                &&& final(self).stale_in_queue(q as int)
                    == old(self).stale_in_queue(q as int)
                &&& !final(self).bq(q as int).contains(s)
                &&& final(self).bq(q as int).len() == old(self).bq(q as int).len() - 1
                &&& (forall|x: usize| old(self).valid_slot(x) && x != s ==>
                    #[trigger] final(self).task(x) == old(self).task(x))
                &&& final(self).tasks@.len() == old(self).tasks@.len()
                &&& (forall|qq: int| 0 <= qq < old(self).block_queues@.len() && qq != q ==>
                    #[trigger] final(self).bq(qq) == old(self).bq(qq))
                &&& final(self).block_queues@.len() == old(self).block_queues@.len()
                &&& (forall|c: usize| old(self).proc_ok(c) ==>
                    final(self).proc_ok(c)
                        && final(self).current_of(c) == old(self).current_of(c))
                &&& (!to_global ==> final(self).local_level(cpu,
                        old(self).task(s).priority as int)
                    == old(self).local_level(cpu, old(self).task(s).priority as int).push(s))
                &&& (to_global ==> final(self).global_level(old(self).task(s).priority as int)
                    == old(self).global_level(old(self).task(s).priority as int).push(s))
            }),
    {
        let ghost o = *old(self);
        let mut i: usize = 0;
        let len = self.block_queues[q].waiters.len();
        while i < len
            invariant
                o == *old(self),
                *self == o,
                o.wf(),
                o.proc_ok(cpu),
                o.valid_queue(q),
                i <= len,
                len == o.bq(q as int).len(),
                forall|j: int| 0 <= j < i ==> !(o.tasks@[
                    #[trigger] o.bq(q as int)[j] as int].state is Blocked),
            decreases len - i,
        {
            let slot = self.block_queues[q].waiters[i];
            proof {
                assert(o.bq(q as int)[i as int] == slot);
                assert(o.valid_slot(slot));
            }
            if self.tasks[slot].state == TaskState::Blocked {
                // found the first parked waiter: withdraw and enqueue it
                proof {
                    lemma_filter_remove_first(o.bq(q as int), o.spec_blocked_pred(), i as int);
                    assert(o.task_location_wf(slot));
                    assert(o.task(slot).location == Location::Parked(q)
                        || (o.task(slot).location matches Location::Parking(_, q2)
                            && q2 == q as int)) by {
                        assert(o.bq(q as int).contains(slot));
                    }
                }
                self.block_queues[q].waiters.remove(i);
                let mut t = self.tasks[slot];
                t.state = TaskState::Runnable;
                t.location = if to_global { Location::ReadyGlobal }
                    else { Location::ReadyLocal(cpu) };
                self.tasks[slot] = t;
                if to_global {
                    self.global_scheduler.add_task(slot, t.priority);
                } else {
                    let proc_opt = self.processors[cpu].take();
                    if let Some(mut p) = proc_opt {
                        p.local_scheduler.add_task(slot, t.priority);
                        self.processors[cpu] = Some(p);
                    }
                }
                proof {
                    if to_global {
                        self.lemma_wake_enqueue_global_wf(o, slot, q, i as int);
                    } else {
                        self.lemma_wake_enqueue_wf(o, cpu, slot, q, i as int, true);
                    }
                    let rem = o.bq(q as int).remove(i as int);
                    assert(self.bq(q as int) == rem);
                    lemma_remove_props(o.bq(q as int), i as int);
                    assert forall|j: int| 0 <= j < rem.len()
                        implies self.tasks@[#[trigger] rem[j] as int]
                            == o.tasks@[rem[j] as int] by {
                        assert(rem.contains(rem[j]));
                        assert(rem[j] != slot);
                        assert(o.bq(q as int).contains(rem[j]));
                        assert(o.valid_slot(rem[j]));
                    }
                    lemma_filter_congruence(rem, self.spec_blocked_pred(),
                        o.spec_blocked_pred());
                    lemma_filter_congruence(rem, self.spec_stale_pred(),
                        o.spec_stale_pred());
                    lemma_filter_congruence(rem, o.spec_stale_pred(),
                        |x: usize| !(o.spec_blocked_pred())(x));
                    lemma_filter_congruence(o.bq(q as int), o.spec_stale_pred(),
                        |x: usize| !(o.spec_blocked_pred())(x));
                    assert(self.blocked_in_queue(q as int)
                        == o.blocked_in_queue(q as int).drop_first());
                    assert(self.stale_in_queue(q as int) == o.stale_in_queue(q as int));
                }
                return Some(slot);
            }
            i = i + 1;
        }
        proof {
            assert(forall|j: int| 0 <= j < o.bq(q as int).len()
                ==> !(o.spec_blocked_pred())(#[trigger] o.bq(q as int)[j]));
            o.bq(q as int).lemma_all_neg_filter_empty(o.spec_blocked_pred());
        }
        None
    }
}

impl Runtime {
    /// The wake-all sweep shared by the local and global variants: walks
    /// the queue once, waking every parked waiter in order, and returns
    /// exactly the number of tasks whose state was `Blocked` at entry.
    /// Entries still in their blocking window stay, in order.
    fn wake_all_common(&mut self, cpu: usize, q: usize, to_global: bool) -> (r: usize)
        requires
            old(self).wf(),
            old(self).proc_ok(cpu),
            old(self).valid_queue(q),
        ensures
            final(self).wf(),
            final(self).proc_ok(cpu),
            r as int == old(self).blocked_in_queue(q as int).len(),
            final(self).bq(q as int) == old(self).stale_in_queue(q as int),
            forall|i: int| 0 <= i < r ==> ({
                let s = #[trigger] old(self).blocked_in_queue(q as int)[i];
                &&& old(self).valid_slot(s)
                &&& final(self).task(s) == (Task {
                    state: TaskState::Runnable,
                    location: (if to_global { Location::ReadyGlobal }
                        else { Location::ReadyLocal(cpu) }),
                    ..old(self).task(s)
                })
            }),
            forall|x: usize| old(self).valid_slot(x)
                && !(old(self).task(x).state is Blocked
                    && old(self).bq(q as int).contains(x)) ==>
                #[trigger] final(self).task(x) == old(self).task(x),
            forall|qq: int| 0 <= qq < old(self).block_queues@.len() && qq != q ==>
                #[trigger] final(self).bq(qq) == old(self).bq(qq),
            final(self).block_queues@.len() == old(self).block_queues@.len(),
            final(self).tasks@.len() == old(self).tasks@.len(),
            forall|c: usize| old(self).proc_ok(c) ==>
                final(self).proc_ok(c) && final(self).current_of(c) == old(self).current_of(c),
            forall|s: usize| old(self).valid_slot(s) ==>
                ((#[trigger] final(self).task(s)).state == old(self).task(s).state
                    || crate::task::state_transition_allowed(old(self).task(s).state,
                        final(self).task(s).state)),
    {
        broadcast use vstd::seq_lib::group_filter_ensures;

        let ghost o = *old(self);
        let ghost total = o.blocked_in_queue(q as int).len();
        proof {
            lemma_vec_len_bound(&o.block_queues@[q as int].waiters);
        }
        let mut count: usize = 0;
        loop
            invariant_except_break
                o == *old(self),
                self.wf(),
                self.proc_ok(cpu),
                self.valid_queue(q),
                o.wf(),
                o.proc_ok(cpu),
                o.valid_queue(q),
                count as int <= total,
                total == o.blocked_in_queue(q as int).len(),
                total <= usize::MAX,
                count as int + self.blocked_in_queue(q as int).len() == total,
                self.blocked_in_queue(q as int)
                    == o.blocked_in_queue(q as int).subrange(count as int, total as int),
                self.stale_in_queue(q as int) == o.stale_in_queue(q as int),
                forall|i: int| 0 <= i < count ==> ({
                    let s = #[trigger] o.blocked_in_queue(q as int)[i];
                    &&& o.valid_slot(s)
                    &&& self.task(s) == (Task {
                        state: TaskState::Runnable,
                        location: (if to_global { Location::ReadyGlobal }
                            else { Location::ReadyLocal(cpu) }),
                        ..o.task(s)
                    })
                }),
                forall|x: usize| o.valid_slot(x)
                    && !o.blocked_in_queue(q as int).subrange(0, count as int).contains(x)
                    ==> #[trigger] self.task(x) == o.task(x),
                forall|qq: int| 0 <= qq < o.block_queues@.len() && qq != q ==>
                    #[trigger] self.bq(qq) == o.bq(qq),
                self.block_queues@.len() == o.block_queues@.len(),
                self.tasks@.len() == o.tasks@.len(),
                forall|c: usize| o.proc_ok(c) ==>
                    self.proc_ok(c) && self.current_of(c) == o.current_of(c),
            ensures
                o == *old(self),
                self.wf(),
                self.proc_ok(cpu),
                count as int == total,
                self.blocked_in_queue(q as int).len() == 0,
                self.stale_in_queue(q as int) == o.stale_in_queue(q as int),
                self.valid_queue(q),
                forall|i: int| 0 <= i < count ==> ({
                    let s = #[trigger] o.blocked_in_queue(q as int)[i];
                    &&& o.valid_slot(s)
                    &&& self.task(s) == (Task {
                        state: TaskState::Runnable,
                        location: (if to_global { Location::ReadyGlobal }
                            else { Location::ReadyLocal(cpu) }),
                        ..o.task(s)
                    })
                }),
                forall|x: usize| o.valid_slot(x)
                    && !o.blocked_in_queue(q as int).subrange(0, count as int).contains(x)
                    ==> #[trigger] self.task(x) == o.task(x),
                forall|qq: int| 0 <= qq < o.block_queues@.len() && qq != q ==>
                    #[trigger] self.bq(qq) == o.bq(qq),
                self.block_queues@.len() == o.block_queues@.len(),
                self.tasks@.len() == o.tasks@.len(),
                forall|c: usize| o.proc_ok(c) ==>
                    self.proc_ok(c) && self.current_of(c) == o.current_of(c),
            decreases total - count,
        {
            let ghost before = *self;
            let woken = self.wake_first_blocked(cpu, q, to_global);
            match woken {
                Some(slot) => {
                    proof {
                        let blocked = o.blocked_in_queue(q as int);
                        let pre = blocked.subrange(0, count as int);
                        assert(before.blocked_in_queue(q as int).len() > 0);
                        assert(slot == before.blocked_in_queue(q as int)[0]);
                        assert(slot == blocked[count as int]);
                        // earlier rounds woke other tasks, so this entry is
                        // still exactly as the sweep found the queue
                        assert(!pre.contains(slot)) by {
                            if pre.contains(slot) {
                                let j = choose|j: int| 0 <= j < pre.len() && pre[j] == slot;
                                assert(blocked[j] == slot);
                                assert(before.task(slot).state is Runnable);
                                assert(before.task(slot).state is Blocked);
                            }
                        }
                        assert(before.task(slot) == o.task(slot));
                        assert(self.blocked_in_queue(q as int)
                            =~= blocked.subrange(count as int + 1, total as int));
                        assert(blocked.subrange(0, count as int + 1)
                            =~= pre.push(slot));
                        assert forall|x: usize| o.valid_slot(x)
                            && !blocked.subrange(0, count as int + 1).contains(x)
                            implies #[trigger] self.task(x) == o.task(x) by {
                            assert(!pre.contains(x)) by {
                                if pre.contains(x) {
                                    let j = choose|j: int| 0 <= j < pre.len()
                                        && pre[j] == x;
                                    assert(pre.push(slot)[j] == x);
                                }
                            }
                            assert(x != slot) by {
                                assert(pre.push(slot)[pre.len() as int] == slot);
                            }
                            assert(before.task(x) == o.task(x));
                        }
                    }
                    count = count + 1;
                },
                None => {
                    proof {
                        assert(before.blocked_in_queue(q as int).len() == 0);
                        assert(count as int == total);
                    }
                    break;
                },
            }
        }
        proof {
            // the queue now holds only the entries the sweep left in place
            assert forall|i: int| 0 <= i < self.bq(q as int).len()
                implies !((self.spec_blocked_pred())(#[trigger] self.bq(q as int)[i])) by {
                if (self.spec_blocked_pred())(self.bq(q as int)[i]) {
                    self.bq(q as int).lemma_filter_contains(self.spec_blocked_pred(), i);
                }
            }
            lemma_filter_neg_id(self.bq(q as int), self.spec_blocked_pred());
            lemma_filter_congruence(self.bq(q as int), self.spec_stale_pred(),
                |x: usize| !(self.spec_blocked_pred())(x));
            assert(self.bq(q as int) == self.stale_in_queue(q as int));
            // a task never woken by the sweep is exactly one that was not
            // parked in this queue
            let blocked = o.blocked_in_queue(q as int);
            assert(blocked.subrange(0, count as int) =~= blocked);
            assert forall|x: usize| o.valid_slot(x)
                && !(o.task(x).state is Blocked && o.bq(q as int).contains(x))
                implies #[trigger] self.task(x) == o.task(x) by {
                assert(!blocked.contains(x)) by {
                    if blocked.contains(x) {
                        let j = choose|j: int| 0 <= j < blocked.len() && blocked[j] == x;
                        o.bq(q as int).lemma_filter_pred(o.spec_blocked_pred(), j);
                        assert((o.spec_blocked_pred())(x));
                        o.bq(q as int).lemma_filter_contains_rev(o.spec_blocked_pred(), x);
                    }
                }
            }
        }
        count
    }

    /// Wakes every parked waiter of a block queue into this CPU's local
    /// ready queue, returning exactly how many tasks were woken: the
    /// number whose state was `Blocked` when the sweep started.
    pub fn wake_all_to_local(&mut self, cpu: usize, q: usize) -> (r: usize)
        requires
            old(self).wf(),
            old(self).proc_ok(cpu),
            old(self).valid_queue(q),
        ensures
            final(self).wf(),
            final(self).proc_ok(cpu),
            r as int == old(self).blocked_in_queue(q as int).len(),
            final(self).bq(q as int) == old(self).stale_in_queue(q as int),
            forall|i: int| 0 <= i < r ==> ({
                let s = #[trigger] old(self).blocked_in_queue(q as int)[i];
                &&& old(self).valid_slot(s)
                &&& final(self).task(s) == (Task {
                    state: TaskState::Runnable,
                    location: Location::ReadyLocal(cpu),
                    ..old(self).task(s)
                })
            }),
            forall|x: usize| old(self).valid_slot(x)
                && !(old(self).task(x).state is Blocked
                    && old(self).bq(q as int).contains(x)) ==>
                #[trigger] final(self).task(x) == old(self).task(x),
            final(self).tasks@.len() == old(self).tasks@.len(),
            forall|qq: int| 0 <= qq < old(self).block_queues@.len() && qq != q ==>
                #[trigger] final(self).bq(qq) == old(self).bq(qq),
            final(self).block_queues@.len() == old(self).block_queues@.len(),
            forall|c: usize| old(self).proc_ok(c) ==>
                final(self).proc_ok(c) && final(self).current_of(c) == old(self).current_of(c),
    {
        self.wake_all_common(cpu, q, false)
    }

    /// Wakes every parked waiter of a block queue into the shared global
    /// queue, returning exactly how many tasks were woken.
    pub fn wake_all_to_global(&mut self, cpu: usize, q: usize) -> (r: usize)
        requires
            old(self).wf(),
            old(self).proc_ok(cpu),
            old(self).valid_queue(q),
        ensures
            final(self).wf(),
            final(self).proc_ok(cpu),
            r as int == old(self).blocked_in_queue(q as int).len(),
            final(self).bq(q as int) == old(self).stale_in_queue(q as int),
            forall|i: int| 0 <= i < r ==> ({
                let s = #[trigger] old(self).blocked_in_queue(q as int)[i];
                &&& old(self).valid_slot(s)
                &&& final(self).task(s) == (Task {
                    state: TaskState::Runnable,
                    location: Location::ReadyGlobal,
                    ..old(self).task(s)
                })
            }),
            forall|x: usize| old(self).valid_slot(x)
                && !(old(self).task(x).state is Blocked
                    && old(self).bq(q as int).contains(x)) ==>
                #[trigger] final(self).task(x) == old(self).task(x),
            final(self).tasks@.len() == old(self).tasks@.len(),
            forall|qq: int| 0 <= qq < old(self).block_queues@.len() && qq != q ==>
                #[trigger] final(self).bq(qq) == old(self).bq(qq),
            final(self).block_queues@.len() == old(self).block_queues@.len(),
            forall|c: usize| old(self).proc_ok(c) ==>
                final(self).proc_ok(c) && final(self).current_of(c) == old(self).current_of(c),
    {
        self.wake_all_common(cpu, q, true)
    }

    /// Wakes the first parked waiter of a block queue into this CPU's
    /// local ready queue. Returns 1 when a task was woken, 0 when no
    /// waiter was parked — in particular, 0 on an empty queue.
    pub fn wake_one_to_local(&mut self, cpu: usize, q: usize) -> (r: usize)
        requires
            old(self).wf(),
            old(self).proc_ok(cpu),
            old(self).valid_queue(q),
        ensures
            final(self).wf(),
            final(self).proc_ok(cpu),
            r == (if old(self).blocked_in_queue(q as int).len() > 0 { 1int } else { 0int }),
            old(self).blocked_in_queue(q as int).len() == 0 ==> *final(self) == *old(self),
            old(self).blocked_in_queue(q as int).len() > 0 ==> ({
                let s = old(self).blocked_in_queue(q as int)[0];
                &&& old(self).valid_slot(s)
                &&& final(self).task(s) == (Task {
                    state: TaskState::Runnable,
                    location: Location::ReadyLocal(cpu),
                    ..old(self).task(s)
                })
                &&& !final(self).bq(q as int).contains(s)
                &&& final(self).bq(q as int).len() == old(self).bq(q as int).len() - 1
                &&& final(self).blocked_in_queue(q as int)
                    == old(self).blocked_in_queue(q as int).drop_first()
                &&& final(self).stale_in_queue(q as int)
                    == old(self).stale_in_queue(q as int)
                &&& (forall|x: usize| old(self).valid_slot(x) && x != s ==>
                    #[trigger] final(self).task(x) == old(self).task(x))
            }),
            final(self).tasks@.len() == old(self).tasks@.len(),
            forall|qq: int| 0 <= qq < old(self).block_queues@.len() && qq != q ==>
                #[trigger] final(self).bq(qq) == old(self).bq(qq),
            final(self).block_queues@.len() == old(self).block_queues@.len(),
            forall|c: usize| old(self).proc_ok(c) ==>
                final(self).proc_ok(c) && final(self).current_of(c) == old(self).current_of(c),
    {
        match self.wake_first_blocked(cpu, q, false) {
            Some(_) => 1,
            None => 0,
        }
    }

    /// Wakes the first parked waiter of a block queue into the shared
    /// global queue. Returns 1 when a task was woken, 0 otherwise.
    pub fn wake_one_to_global(&mut self, cpu: usize, q: usize) -> (r: usize)
        requires
            old(self).wf(),
            old(self).proc_ok(cpu),
            old(self).valid_queue(q),
        ensures
            final(self).wf(),
            final(self).proc_ok(cpu),
            r == (if old(self).blocked_in_queue(q as int).len() > 0 { 1int } else { 0int }),
            old(self).blocked_in_queue(q as int).len() == 0 ==> *final(self) == *old(self),
            old(self).blocked_in_queue(q as int).len() > 0 ==> ({
                let s = old(self).blocked_in_queue(q as int)[0];
                &&& old(self).valid_slot(s)
                &&& final(self).task(s) == (Task {
                    state: TaskState::Runnable,
                    location: Location::ReadyGlobal,
                    ..old(self).task(s)
                })
                &&& !final(self).bq(q as int).contains(s)
                &&& final(self).bq(q as int).len() == old(self).bq(q as int).len() - 1
                &&& final(self).blocked_in_queue(q as int)
                    == old(self).blocked_in_queue(q as int).drop_first()
                &&& final(self).stale_in_queue(q as int)
                    == old(self).stale_in_queue(q as int)
                &&& (forall|x: usize| old(self).valid_slot(x) && x != s ==>
                    #[trigger] final(self).task(x) == old(self).task(x))
            }),
            final(self).tasks@.len() == old(self).tasks@.len(),
            forall|qq: int| 0 <= qq < old(self).block_queues@.len() && qq != q ==>
                #[trigger] final(self).bq(qq) == old(self).bq(qq),
            final(self).block_queues@.len() == old(self).block_queues@.len(),
            forall|c: usize| old(self).proc_ok(c) ==>
                final(self).proc_ok(c) && final(self).current_of(c) == old(self).current_of(c),
    {
        match self.wake_first_blocked(cpu, q, true) {
            Some(_) => 1,
            None => 0,
        }
    }
}

impl Runtime {
    /// Whether a task sits in some ready queue, local or global.
    pub open spec fn in_ready_queue(self, s: usize) -> bool {
        ||| exists|c: usize, l: int| #[trigger] self.local_level(c, l).contains(s)
            && self.proc_ok(c) && 0 <= l < PRIO_LEVEL_NUM
        ||| exists|l: int| #[trigger] self.global_level(l).contains(s)
            && 0 <= l < PRIO_LEVEL_NUM
    }

    /// Whether a task sits in some block queue.
    pub open spec fn in_block_queue(self, s: usize) -> bool {
        exists|q: int| 0 <= q < self.block_queues@.len() && #[trigger] self.bq(q).contains(s)
    }

    /// Whether a task is the current task of some CPU.
    pub open spec fn is_current(self, s: usize) -> bool {
        exists|c: usize| #[trigger] self.proc_ok(c) && self.proc(c).current_task == s
    }
}

/// Queue exclusivity: at any instant a task occupies at most one place.
/// It sits in at most one ready queue at one position, or in at most one
/// block queue at one position, or runs on exactly one CPU; a task both
/// current and in a block queue is exactly one caught in its blocking
/// window. A task in a ready queue is in no block queue and on no CPU.
pub proof fn lemma_queue_exclusivity(rt: Runtime, s: usize)
    requires
        rt.wf(),
        rt.valid_slot(s),
    ensures
        rt.in_ready_queue(s) ==> !rt.in_block_queue(s) && !rt.is_current(s),
        rt.in_block_queue(s) && rt.is_current(s) ==> rt.task(s).state is Blocking,
        forall|c1: usize, l1: int, c2: usize, l2: int|
            rt.proc_ok(c1) && 0 <= l1 < PRIO_LEVEL_NUM
            && rt.proc_ok(c2) && 0 <= l2 < PRIO_LEVEL_NUM
            && #[trigger] rt.local_level(c1, l1).contains(s)
            && #[trigger] rt.local_level(c2, l2).contains(s)
            ==> c1 == c2 && l1 == l2,
        forall|l1: int, l2: int|
            0 <= l1 < PRIO_LEVEL_NUM && 0 <= l2 < PRIO_LEVEL_NUM
            && #[trigger] rt.global_level(l1).contains(s)
            && #[trigger] rt.global_level(l2).contains(s)
            ==> l1 == l2,
        forall|c: usize, l1: int, l2: int|
            rt.proc_ok(c) && 0 <= l1 < PRIO_LEVEL_NUM && 0 <= l2 < PRIO_LEVEL_NUM
            && #[trigger] rt.local_level(c, l1).contains(s)
            && #[trigger] rt.global_level(l2).contains(s)
            ==> false,
        forall|q1: int, q2: int|
            0 <= q1 < rt.block_queues@.len() && 0 <= q2 < rt.block_queues@.len()
            && #[trigger] rt.bq(q1).contains(s) && #[trigger] rt.bq(q2).contains(s)
            ==> q1 == q2,
        forall|c1: usize, c2: usize|
            #[trigger] rt.proc_ok(c1) && #[trigger] rt.proc_ok(c2)
            && rt.proc(c1).current_task == s && rt.proc(c2).current_task == s
            ==> c1 == c2,
{
    assert(rt.task_location_wf(s));
    assert forall|c1: usize, l1: int, c2: usize, l2: int|
        rt.proc_ok(c1) && 0 <= l1 < PRIO_LEVEL_NUM
        && rt.proc_ok(c2) && 0 <= l2 < PRIO_LEVEL_NUM
        && #[trigger] rt.local_level(c1, l1).contains(s)
        && #[trigger] rt.local_level(c2, l2).contains(s)
        implies c1 == c2 && l1 == l2 by {
        let i1 = choose|i: int| 0 <= i < rt.local_level(c1, l1).len()
            && rt.local_level(c1, l1)[i] == s;
        let i2 = choose|i: int| 0 <= i < rt.local_level(c2, l2).len()
            && rt.local_level(c2, l2)[i] == s;
        assert(rt.task(s).location == Location::ReadyLocal(c1));
        assert(rt.task(s).location == Location::ReadyLocal(c2));
        assert(rt.task(s).priority == l1 && rt.task(s).priority == l2);
    }
    assert forall|l1: int, l2: int|
        0 <= l1 < PRIO_LEVEL_NUM && 0 <= l2 < PRIO_LEVEL_NUM
        && #[trigger] rt.global_level(l1).contains(s)
        && #[trigger] rt.global_level(l2).contains(s)
        implies l1 == l2 by {
        let i1 = choose|i: int| 0 <= i < rt.global_level(l1).len()
            && rt.global_level(l1)[i] == s;
        let i2 = choose|i: int| 0 <= i < rt.global_level(l2).len()
            && rt.global_level(l2)[i] == s;
        assert(rt.task(s).priority == l1 && rt.task(s).priority == l2);
    }
    assert forall|c: usize, l1: int, l2: int|
        rt.proc_ok(c) && 0 <= l1 < PRIO_LEVEL_NUM && 0 <= l2 < PRIO_LEVEL_NUM
        && #[trigger] rt.local_level(c, l1).contains(s)
        && #[trigger] rt.global_level(l2).contains(s)
        implies false by {
        let i1 = choose|i: int| 0 <= i < rt.local_level(c, l1).len()
            && rt.local_level(c, l1)[i] == s;
        let i2 = choose|i: int| 0 <= i < rt.global_level(l2).len()
            && rt.global_level(l2)[i] == s;
        assert(rt.task(s).location == Location::ReadyLocal(c));
        assert(rt.task(s).location == Location::ReadyGlobal);
    }
    assert forall|q1: int, q2: int|
        0 <= q1 < rt.block_queues@.len() && 0 <= q2 < rt.block_queues@.len()
        && #[trigger] rt.bq(q1).contains(s) && #[trigger] rt.bq(q2).contains(s)
        implies q1 == q2 by {
        let i1 = choose|i: int| 0 <= i < rt.bq(q1).len() && rt.bq(q1)[i] == s;
        let i2 = choose|i: int| 0 <= i < rt.bq(q2).len() && rt.bq(q2)[i] == s;
        lemma_vec_len_bound(&rt.block_queues);
    }
    if rt.in_ready_queue(s) {
        assert(rt.task(s).location is ReadyLocal || rt.task(s).location is ReadyGlobal) by {
            if exists|c: usize, l: int| #[trigger] rt.local_level(c, l).contains(s)
                && rt.proc_ok(c) && 0 <= l < PRIO_LEVEL_NUM {
                let (c, l) = choose|c: usize, l: int| #[trigger] rt.local_level(c, l)
                    .contains(s) && rt.proc_ok(c) && 0 <= l < PRIO_LEVEL_NUM;
                let i = choose|i: int| 0 <= i < rt.local_level(c, l).len()
                    && rt.local_level(c, l)[i] == s;
                assert(rt.task(s).location == Location::ReadyLocal(c));
            } else {
                let l = choose|l: int| #[trigger] rt.global_level(l).contains(s)
                    && 0 <= l < PRIO_LEVEL_NUM;
                let i = choose|i: int| 0 <= i < rt.global_level(l).len()
                    && rt.global_level(l)[i] == s;
                assert(rt.task(s).location == Location::ReadyGlobal);
            }
        }
        assert(!rt.in_block_queue(s)) by {
            if rt.in_block_queue(s) {
                let q = choose|q: int| 0 <= q < rt.block_queues@.len()
                    && #[trigger] rt.bq(q).contains(s);
                let i = choose|i: int| 0 <= i < rt.bq(q).len() && rt.bq(q)[i] == s;
            }
        }
        assert(!rt.is_current(s)) by {
            if rt.is_current(s) {
                let c = choose|c: usize| #[trigger] rt.proc_ok(c)
                    && rt.proc(c).current_task == s;
                assert(rt.proc_wf(c));
            }
        }
    }
    if rt.in_block_queue(s) && rt.is_current(s) {
        let q = choose|q: int| 0 <= q < rt.block_queues@.len()
            && #[trigger] rt.bq(q).contains(s);
        let i = choose|i: int| 0 <= i < rt.bq(q).len() && rt.bq(q)[i] == s;
        let c = choose|c: usize| #[trigger] rt.proc_ok(c) && rt.proc(c).current_task == s;
        assert(rt.proc_wf(c));
    }
}

/// State liveness: a blocked task can be found in some block queue, and a
/// runnable task is either running on some CPU, waiting in some ready
/// queue, or standing by as a CPU's idle task. The synthetic boot task is
/// the one exception: it retires outside every queue.
pub proof fn lemma_state_liveness(rt: Runtime, s: usize)
    requires
        rt.wf(),
        rt.valid_slot(s),
        !rt.task(s).is_original,
    ensures
        rt.task(s).state is Blocked ==> rt.in_block_queue(s),
        rt.task(s).state is Runnable ==> rt.is_current(s) || rt.in_ready_queue(s)
            || (exists|c: usize| #[trigger] rt.proc_ok(c) && rt.proc(c).idle_task == s),
{
    assert(rt.task_location_wf(s));
    match rt.task(s).location {
        Location::Running(c) => {
            assert(rt.proc_ok(c) && rt.proc(c).current_task == s);
        },
        Location::Parking(c, q) => {
            assert(0 <= (q as int) && (q as int) < rt.block_queues@.len() && rt.bq(q as int).contains(s));
        },
        Location::ReadyLocal(c) => {
            let l = rt.task(s).priority as int;
            assert(rt.local_level(c, l).contains(s) && rt.proc_ok(c)
                && 0 <= l < PRIO_LEVEL_NUM);
        },
        Location::ReadyGlobal => {
            let l = rt.task(s).priority as int;
            assert(rt.global_level(l).contains(s) && 0 <= l < PRIO_LEVEL_NUM);
        },
        Location::Parked(q) => {
            assert(0 <= (q as int) && (q as int) < rt.block_queues@.len() && rt.bq(q as int).contains(s));
        },
        Location::IdleSlot(c) => {
            assert(rt.proc_ok(c) && rt.proc(c).idle_task == s);
        },
        Location::Detached => {},
    }
}

/// Uniqueness of identities: distinct tasks created during a run never
/// share an identifier, because identifiers follow the task table slots
/// one past another and are never reused.
pub proof fn lemma_task_ids_unique(rt: Runtime, t1: usize, t2: usize)
    requires
        rt.wf(),
        rt.valid_slot(t1),
        rt.valid_slot(t2),
        t1 != t2,
    ensures
        rt.task(t1).id != rt.task(t2).id,
{
    assert(rt.task(t1).id.0 == t1 as int + 1);
    assert(rt.task(t2).id.0 == t2 as int + 1);
}

/// The runtime's side of the kernel-guard interface consumed by external
/// lock crates: locks that must keep preemption off while held raise the
/// current task's preemption-disable counter on entry and lower it on
/// exit. Raising it twice and lowering it twice leaves the counter exactly
/// where it started.
pub struct KernelGuardImpl;

impl KernelGuardImpl {
    /// The guard's preemption-off entry hook; a no-op before the CPU has
    /// been initialised, as early lock acquisitions expect.
    pub fn disable_preempt(rt: &mut Runtime, cpu: usize)
        requires
            old(rt).wf(),
            old(rt).proc_ok(cpu) ==>
                old(rt).task(old(rt).current_of(cpu)).preempt_disable_count < u64::MAX,
        ensures
            final(rt).wf(),
            !old(rt).proc_ok(cpu) ==> *final(rt) == *old(rt),
            old(rt).proc_ok(cpu) ==>
                final(rt).task(old(rt).current_of(cpu)).preempt_disable_count
                    == old(rt).task(old(rt).current_of(cpu)).preempt_disable_count + 1,
    {
        current_disable_preempt(rt, cpu);
    }

    /// The guard's preemption-on exit hook; a no-op before the CPU has
    /// been initialised.
    pub fn enable_preempt(rt: &mut Runtime, cpu: usize)
        requires
            old(rt).wf(),
            old(rt).proc_ok(cpu) ==>
                old(rt).task(old(rt).current_of(cpu)).preempt_disable_count > 0,
        ensures
            final(rt).wf(),
            !old(rt).proc_ok(cpu) ==> *final(rt) == *old(rt),
            old(rt).proc_ok(cpu) ==>
                final(rt).task(old(rt).current_of(cpu)).preempt_disable_count
                    == old(rt).task(old(rt).current_of(cpu)).preempt_disable_count - 1,
    {
        current_enable_preempt(rt, cpu);
    }
}

impl Runtime {
    /// The record a conditional wake leaves for a task it woke.
    pub open spec fn spec_woken_as(self, o: Runtime, x: usize, cpu: usize, to_global: bool)
        -> bool {
        self.task(x) == (Task {
            state: TaskState::Runnable,
            location: (if to_global { Location::ReadyGlobal }
                else { Location::ReadyLocal(cpu) }),
            ..o.task(x)
        })
    }

    /// The conditional wake sweep: walks the queue once; a parked waiter
    /// whose predicate answers true is withdrawn and enqueued, others stay.
    /// With `wake_all` false the sweep stops after the first wake. Returns
    /// how many tasks were woken. The predicate runs outside the verifier's
    /// sight, so the contract is relational in both directions: whoever
    /// changed was a parked waiter the predicate approved, and a parked
    /// waiter left in place — or passed over before the first wake — is
    /// one the predicate answered false for. A sweep that wakes nobody
    /// changes nothing, and then every parked waiter was asked and
    /// declined.
    fn wake_sweep_with_cond<F: Fn(&Task) -> bool>(&mut self, cpu: usize, q: usize,
        to_global: bool, wake_all: bool, cond: &F) -> (r: usize)
        requires
            old(self).wf(),
            old(self).proc_ok(cpu),
            old(self).valid_queue(q),
            forall|t: &Task| #[trigger] cond.requires((t,)),
        ensures
            final(self).wf(),
            final(self).proc_ok(cpu),
            r as int == old(self).bq(q as int).len() - final(self).bq(q as int).len(),
            !wake_all ==> r <= 1,
            // the waiters left behind keep their places: the final list is
            // the old list restricted, in order, to the entries still held
            final(self).bq(q as int) == old(self).bq(q as int).filter(
                |x: usize| final(self).bq(q as int).contains(x)),
            r == 0 ==> *final(self) == *old(self),
            // a sweep that woke nobody asked every parked waiter and was
            // declined each time
            r == 0 ==> forall|j: int| 0 <= j < old(self).bq(q as int).len() ==>
                (old(self).task(#[trigger] old(self).bq(q as int)[j]).state is Blocked ==>
                    call_ensures(*cond, (&old(self).task(old(self).bq(q as int)[j]),), false)),
            forall|x: usize| old(self).valid_slot(x)
                && #[trigger] final(self).task(x) != old(self).task(x) ==> {
                &&& old(self).task(x).state is Blocked
                &&& old(self).bq(q as int).contains(x)
                &&& call_ensures(*cond, (&old(self).task(x),), true)
                &&& final(self).spec_woken_as(*old(self), x, cpu, to_global)
                &&& !final(self).bq(q as int).contains(x)
            },
            forall|x: usize| old(self).valid_slot(x)
                && #[trigger] old(self).bq(q as int).contains(x)
                && !final(self).bq(q as int).contains(x) ==>
                final(self).task(x) != old(self).task(x),
            // a full sweep leaves a parked waiter in place only when the
            // predicate answered false for it
            wake_all ==> forall|x: usize| old(self).valid_slot(x)
                && old(self).task(x).state is Blocked
                && #[trigger] old(self).bq(q as int).contains(x)
                && final(self).bq(q as int).contains(x) ==>
                call_ensures(*cond, (&old(self).task(x),), false),
            // a single wake takes the first parked waiter the predicate
            // approved: every parked waiter ahead of it was declined
            (!wake_all && r == 1) ==> exists|idx: int| {
                &&& 0 <= idx < old(self).bq(q as int).len()
                &&& #[trigger] final(self).task(old(self).bq(q as int)[idx])
                    != old(self).task(old(self).bq(q as int)[idx])
                &&& (forall|j: int| 0 <= j < idx ==>
                    (old(self).task(#[trigger] old(self).bq(q as int)[j]).state is Blocked ==>
                        call_ensures(*cond, (&old(self).task(old(self).bq(q as int)[j]),),
                            false)))
            },
            forall|qq: int| 0 <= qq < old(self).block_queues@.len() && qq != q ==>
                #[trigger] final(self).bq(qq) == old(self).bq(qq),
            final(self).block_queues@.len() == old(self).block_queues@.len(),
            final(self).tasks@.len() == old(self).tasks@.len(),
            forall|c: usize| old(self).proc_ok(c) ==>
                final(self).proc_ok(c) && final(self).current_of(c) == old(self).current_of(c),
            forall|s: usize| old(self).valid_slot(s) ==>
                ((#[trigger] final(self).task(s)).state == old(self).task(s).state
                    || crate::task::state_transition_allowed(old(self).task(s).state,
                        final(self).task(s).state)),
    {
        let ghost o = *old(self);
        proof {
            lemma_filter_all_id(o.bq(q as int), |x: usize| o.bq(q as int).contains(x));
        }
        let mut count: usize = 0;
        let mut i: usize = 0;
        while i < self.block_queues[q].waiters.len()
            invariant
                o == *old(self),
                o.wf(),
                o.proc_ok(cpu),
                o.valid_queue(q),
                self.wf(),
                self.proc_ok(cpu),
                self.valid_queue(q),
                forall|t: &Task| #[trigger] cond.requires((t,)),
                i <= self.bq(q as int).len(),
                count as int == o.bq(q as int).len() - self.bq(q as int).len(),
                wake_all || count == 0,
                count == 0 ==> *self == o,
                self.bq(q as int) == o.bq(q as int).filter(
                    |x: usize| self.bq(q as int).contains(x)),
                forall|j: int| 0 <= j < self.bq(q as int).len() ==>
                    o.bq(q as int).contains(#[trigger] self.bq(q as int)[j]),
                // every task still in the queue stands as the sweep found it
                forall|j: int| 0 <= j < self.bq(q as int).len() ==>
                    self.task(#[trigger] self.bq(q as int)[j])
                        == o.task(self.bq(q as int)[j]),
                // the entries already walked past were asked and declined
                forall|j: int| 0 <= j < i ==>
                    (o.task(#[trigger] self.bq(q as int)[j]).state is Blocked ==>
                        call_ensures(*cond, (&o.task(self.bq(q as int)[j]),), false)),
                forall|x: usize| o.valid_slot(x)
                    && #[trigger] self.task(x) != o.task(x) ==> {
                    &&& o.task(x).state is Blocked
                    &&& o.bq(q as int).contains(x)
                    &&& call_ensures(*cond, (&o.task(x),), true)
                    &&& self.spec_woken_as(o, x, cpu, to_global)
                },
                forall|x: usize| o.valid_slot(x)
                    && #[trigger] o.bq(q as int).contains(x)
                    && !self.bq(q as int).contains(x) ==>
                    self.task(x) != o.task(x),
                forall|qq: int| 0 <= qq < o.block_queues@.len() && qq != q ==>
                    #[trigger] self.bq(qq) == o.bq(qq),
                self.block_queues@.len() == o.block_queues@.len(),
                self.tasks@.len() == o.tasks@.len(),
                forall|c: usize| o.proc_ok(c) ==>
                    self.proc_ok(c) && self.current_of(c) == o.current_of(c),
            decreases self.bq(q as int).len() - i,
        {
            let ghost step = *self;
            let slot = self.block_queues[q].waiters[i];
            proof {
                assert(step.bq(q as int)[i as int] == slot);
                assert(step.valid_slot(slot));
            }
            let t = self.tasks[slot];
            let mut woke = false;
            if t.state == TaskState::Blocked {
                let approved = cond(&t);
                if approved {
                    proof {
                        assert(step.task_location_wf(slot));
                        assert(step.task(slot).location == Location::Parked(q)
                            || (step.task(slot).location matches Location::Parking(_, q2)
                                && q2 == q as int)) by {
                            assert(step.bq(q as int).contains(slot));
                        }
                        assert(step.task(slot) == o.task(slot));
                    }
                    self.block_queues[q].waiters.remove(i);
                    let mut t2 = t;
                    t2.state = TaskState::Runnable;
                    t2.location = if to_global { Location::ReadyGlobal }
                        else { Location::ReadyLocal(cpu) };
                    self.tasks[slot] = t2;
                    if to_global {
                        self.global_scheduler.add_task(slot, t2.priority);
                    } else {
                        let proc_opt = self.processors[cpu].take();
                        if let Some(mut p) = proc_opt {
                            p.local_scheduler.add_task(slot, t2.priority);
                            self.processors[cpu] = Some(p);
                        }
                    }
                    woke = true;
                    proof {
                        lemma_vec_len_bound(&o.block_queues@[q as int].waiters);
                        assert(count as int == o.bq(q as int).len() - step.bq(q as int).len());
                    }
                    count = count + 1;
                    proof {
                        if to_global {
                            self.lemma_wake_enqueue_global_wf(step, slot, q, i as int);
                        } else {
                            self.lemma_wake_enqueue_wf(step, cpu, slot, q, i as int, true);
                        }
                        lemma_remove_props(step.bq(q as int), i as int);
                        assert(t == o.task(slot));
                        assert(call_ensures(*cond, (&t,), true));
                        assert(call_ensures(*cond, (&o.task(slot),), true));
                        // the survivors keep their places: tightening the
                        // membership view by the removed entry drops exactly
                        // its position
                        assert(step.bq(q as int).no_duplicates());
                        assert forall|x: usize|
                            #[trigger] self.bq(q as int).contains(x)
                                == (step.bq(q as int).contains(x) && x != slot) by {
                            assert(step.bq(q as int)[i as int] == slot);
                        }
                        assert(step.bq(q as int)
                            == o.bq(q as int).filter(
                                |x: usize| step.bq(q as int).contains(x)));
                        lemma_filter_drop_one(o.bq(q as int),
                            |x: usize| step.bq(q as int).contains(x),
                            |x: usize| self.bq(q as int).contains(x),
                            slot, i as int);
                        assert(self.bq(q as int)
                            == o.bq(q as int).filter(
                                |x: usize| self.bq(q as int).contains(x)));
                        assert forall|x: usize| o.valid_slot(x)
                            && #[trigger] self.task(x) != o.task(x) implies {
                            &&& o.task(x).state is Blocked
                            &&& o.bq(q as int).contains(x)
                            &&& call_ensures(*cond, (&o.task(x),), true)
                            &&& self.spec_woken_as(o, x, cpu, to_global)
                        } by {
                            if x == slot {
                                assert(self.task(slot).state is Runnable);
                                assert(o.bq(q as int).contains(slot)) by {
                                    assert(step.bq(q as int).contains(slot));
                                }
                            } else {
                                assert(self.task(x) == step.task(x));
                            }
                        }
                        assert forall|j: int| 0 <= j < self.bq(q as int).len() implies
                            o.bq(q as int).contains(#[trigger] self.bq(q as int)[j]) by {
                            assert(self.bq(q as int).contains(self.bq(q as int)[j]));
                            assert(step.bq(q as int).contains(self.bq(q as int)[j]));
                        }
                        assert forall|j: int| 0 <= j < self.bq(q as int).len() implies
                            self.task(#[trigger] self.bq(q as int)[j])
                                == o.task(self.bq(q as int)[j]) by {
                            let e = self.bq(q as int)[j];
                            assert(self.bq(q as int).contains(e));
                            assert(step.bq(q as int).contains(e));
                            assert(e != slot);
                            assert(self.task(e) == step.task(e));
                        }
                        assert forall|j: int|
                            0 <= j < i
                            && o.task(#[trigger] self.bq(q as int)[j]).state is Blocked
                            implies call_ensures(*cond, (&o.task(self.bq(q as int)[j]),),
                                false) by {
                            assert(self.bq(q as int)[j] == step.bq(q as int)[j]);
                        }
                        assert forall|qq: int| 0 <= qq < o.block_queues@.len() && qq != q
                            implies #[trigger] self.bq(qq) == o.bq(qq) by {
                            assert(self.bq(qq) == step.bq(qq));
                        }
                        assert forall|x: usize| o.valid_slot(x)
                            && #[trigger] o.bq(q as int).contains(x)
                            && !self.bq(q as int).contains(x) implies
                            self.task(x) != o.task(x) by {
                            if x == slot {
                                assert(self.task(slot).state is Runnable);
                                assert(o.task(slot).state is Blocked);
                            } else {
                                if step.bq(q as int).contains(x) {
                                    assert(self.bq(q as int).contains(x));
                                    assert(false);
                                }
                                assert(step.task(x) != o.task(x));
                                assert(self.task(x) == step.task(x));
                            }
                        }
                    }
                } else {
                    proof {
                        // the entry was asked and declined; it stays, and the
                        // walked prefix grows by it
                        assert(t == o.task(slot)) by {
                            assert(step.bq(q as int).contains(slot));
                        }
                        assert(call_ensures(*cond, (&t,), approved));
                        assert(call_ensures(*cond, (&o.task(slot),), false));
                    }
                }
            }
            if !woke {
                i = i + 1;
            }
            if woke && !wake_all {
                proof {
                    // the first wake of a single-wake sweep: nothing had
                    // changed before it, so the position is a position of
                    // the queue as given, and every parked entry ahead of
                    // it was declined
                    assert(step == o);
                    let idx = i as int;
                    assert(o.bq(q as int)[idx] == slot);
                    assert(self.task(o.bq(q as int)[idx]) != o.task(o.bq(q as int)[idx]));
                    assert forall|j: int|
                        0 <= j < idx
                        && o.task(#[trigger] o.bq(q as int)[j]).state is Blocked
                        implies call_ensures(*cond, (&o.task(o.bq(q as int)[j]),), false) by {
                        assert(step.bq(q as int)[j] == o.bq(q as int)[j]);
                    }
                    assert(exists|idx2: int| {
                        &&& 0 <= idx2 < o.bq(q as int).len()
                        &&& #[trigger] self.task(o.bq(q as int)[idx2])
                            != o.task(o.bq(q as int)[idx2])
                        &&& (forall|j: int| 0 <= j < idx2 ==>
                            (o.task(#[trigger] o.bq(q as int)[j]).state is Blocked ==>
                                call_ensures(*cond, (&o.task(o.bq(q as int)[j]),), false)))
                    }) by {
                        assert(0 <= idx < o.bq(q as int).len()
                            && self.task(o.bq(q as int)[idx]) != o.task(o.bq(q as int)[idx])
                            && (forall|j: int| 0 <= j < idx ==>
                                (o.task(#[trigger] o.bq(q as int)[j]).state is Blocked ==>
                                    call_ensures(*cond, (&o.task(o.bq(q as int)[j]),),
                                        false))));
                    }
                    assert forall|x: usize| o.valid_slot(x)
                        && #[trigger] self.task(x) != o.task(x) implies
                        !self.bq(q as int).contains(x) by {
                        if self.bq(q as int).contains(x) {
                            let j = choose|j: int| 0 <= j < self.bq(q as int).len()
                                && self.bq(q as int)[j] == x;
                        }
                    }
                }
                return count;
            }
        }
        proof {
            // the sweep finished the whole queue: every survivor sits in the
            // walked prefix
            assert(i as int == self.bq(q as int).len());
            if count == 0 {
                assert(*self == o);
                assert forall|j: int|
                    0 <= j < o.bq(q as int).len()
                    && o.task(#[trigger] o.bq(q as int)[j]).state is Blocked
                    implies call_ensures(*cond, (&o.task(o.bq(q as int)[j]),), false) by {
                    assert(self.bq(q as int)[j] == o.bq(q as int)[j]);
                }
            }
            assert forall|x: usize| o.valid_slot(x)
                && o.task(x).state is Blocked
                && #[trigger] o.bq(q as int).contains(x)
                && self.bq(q as int).contains(x) implies
                call_ensures(*cond, (&o.task(x),), false) by {
                let j = choose|j: int| 0 <= j < self.bq(q as int).len()
                    && self.bq(q as int)[j] == x;
                assert(o.task(self.bq(q as int)[j]).state is Blocked);
            }
            assert forall|x: usize| o.valid_slot(x)
                && #[trigger] self.task(x) != o.task(x) implies
                !self.bq(q as int).contains(x) by {
                if self.bq(q as int).contains(x) {
                    let j = choose|j: int| 0 <= j < self.bq(q as int).len()
                        && self.bq(q as int)[j] == x;
                }
            }
        }
        count
    }

    /// Wakes the first parked waiter the predicate approves, into the
    /// local ready queue of this CPU. Returns how many tasks were woken:
    /// one or none.
    pub fn wake_one_with_cond_to_local<F: Fn(&Task) -> bool>(&mut self, cpu: usize, q: usize,
        cond: F) -> (r: usize)
        requires
            old(self).wf(),
            old(self).proc_ok(cpu),
            old(self).valid_queue(q),
            forall|t: &Task| #[trigger] cond.requires((t,)),
        ensures
            final(self).wf(),
            final(self).proc_ok(cpu),
            r <= 1,
            r as int == old(self).bq(q as int).len() - final(self).bq(q as int).len(),
            // the waiters left behind keep their places: the final list is
            // the old list restricted, in order, to the entries still held
            final(self).bq(q as int) == old(self).bq(q as int).filter(
                |x: usize| final(self).bq(q as int).contains(x)),
            r == 0 ==> *final(self) == *old(self),
            r == 0 ==> forall|j: int| 0 <= j < old(self).bq(q as int).len() ==>
                (old(self).task(#[trigger] old(self).bq(q as int)[j]).state is Blocked ==>
                    call_ensures(cond, (&old(self).task(old(self).bq(q as int)[j]),), false)),
            r == 1 ==> exists|idx: int| {
                &&& 0 <= idx < old(self).bq(q as int).len()
                &&& #[trigger] final(self).task(old(self).bq(q as int)[idx])
                    != old(self).task(old(self).bq(q as int)[idx])
                &&& (forall|j: int| 0 <= j < idx ==>
                    (old(self).task(#[trigger] old(self).bq(q as int)[j]).state is Blocked ==>
                        call_ensures(cond, (&old(self).task(old(self).bq(q as int)[j]),),
                            false)))
            },
            forall|x: usize| old(self).valid_slot(x)
                && #[trigger] final(self).task(x) != old(self).task(x) ==> {
                &&& old(self).task(x).state is Blocked
                &&& old(self).bq(q as int).contains(x)
                &&& call_ensures(cond, (&old(self).task(x),), true)
                &&& final(self).spec_woken_as(*old(self), x, cpu, false)
                &&& !final(self).bq(q as int).contains(x)
            },
            final(self).tasks@.len() == old(self).tasks@.len(),
            forall|qq: int| 0 <= qq < old(self).block_queues@.len() && qq != q ==>
                #[trigger] final(self).bq(qq) == old(self).bq(qq),
            final(self).block_queues@.len() == old(self).block_queues@.len(),
            forall|c: usize| old(self).proc_ok(c) ==>
                final(self).proc_ok(c) && final(self).current_of(c) == old(self).current_of(c),
    {
        self.wake_sweep_with_cond(cpu, q, false, false, &cond)
    }

    /// Wakes the first parked waiter the predicate approves, into the
    /// shared global queue.
    pub fn wake_one_with_cond_to_global<F: Fn(&Task) -> bool>(&mut self, cpu: usize, q: usize,
        cond: F) -> (r: usize)
        requires
            old(self).wf(),
            old(self).proc_ok(cpu),
            old(self).valid_queue(q),
            forall|t: &Task| #[trigger] cond.requires((t,)),
        ensures
            final(self).wf(),
            final(self).proc_ok(cpu),
            r <= 1,
            r as int == old(self).bq(q as int).len() - final(self).bq(q as int).len(),
            // the waiters left behind keep their places: the final list is
            // the old list restricted, in order, to the entries still held
            final(self).bq(q as int) == old(self).bq(q as int).filter(
                |x: usize| final(self).bq(q as int).contains(x)),
            r == 0 ==> *final(self) == *old(self),
            r == 0 ==> forall|j: int| 0 <= j < old(self).bq(q as int).len() ==>
                (old(self).task(#[trigger] old(self).bq(q as int)[j]).state is Blocked ==>
                    call_ensures(cond, (&old(self).task(old(self).bq(q as int)[j]),), false)),
            r == 1 ==> exists|idx: int| {
                &&& 0 <= idx < old(self).bq(q as int).len()
                &&& #[trigger] final(self).task(old(self).bq(q as int)[idx])
                    != old(self).task(old(self).bq(q as int)[idx])
                &&& (forall|j: int| 0 <= j < idx ==>
                    (old(self).task(#[trigger] old(self).bq(q as int)[j]).state is Blocked ==>
                        call_ensures(cond, (&old(self).task(old(self).bq(q as int)[j]),),
                            false)))
            },
            forall|x: usize| old(self).valid_slot(x)
                && #[trigger] final(self).task(x) != old(self).task(x) ==> {
                &&& old(self).task(x).state is Blocked
                &&& old(self).bq(q as int).contains(x)
                &&& call_ensures(cond, (&old(self).task(x),), true)
                &&& final(self).spec_woken_as(*old(self), x, cpu, true)
                &&& !final(self).bq(q as int).contains(x)
            },
            final(self).tasks@.len() == old(self).tasks@.len(),
            forall|qq: int| 0 <= qq < old(self).block_queues@.len() && qq != q ==>
                #[trigger] final(self).bq(qq) == old(self).bq(qq),
            final(self).block_queues@.len() == old(self).block_queues@.len(),
            forall|c: usize| old(self).proc_ok(c) ==>
                final(self).proc_ok(c) && final(self).current_of(c) == old(self).current_of(c),
    {
        self.wake_sweep_with_cond(cpu, q, true, false, &cond)
    }

    /// Wakes every parked waiter the predicate approves, into the local
    /// ready queue of this CPU, in one sweep of the queue. Returns how
    /// many tasks were woken.
    pub fn wake_all_with_cond_to_local<F: Fn(&Task) -> bool>(&mut self, cpu: usize, q: usize,
        cond: F) -> (r: usize)
        requires
            old(self).wf(),
            old(self).proc_ok(cpu),
            old(self).valid_queue(q),
            forall|t: &Task| #[trigger] cond.requires((t,)),
        ensures
            final(self).wf(),
            final(self).proc_ok(cpu),
            r as int == old(self).bq(q as int).len() - final(self).bq(q as int).len(),
            // the waiters left behind keep their places: the final list is
            // the old list restricted, in order, to the entries still held
            final(self).bq(q as int) == old(self).bq(q as int).filter(
                |x: usize| final(self).bq(q as int).contains(x)),
            r == 0 ==> *final(self) == *old(self),
            r == 0 ==> forall|j: int| 0 <= j < old(self).bq(q as int).len() ==>
                (old(self).task(#[trigger] old(self).bq(q as int)[j]).state is Blocked ==>
                    call_ensures(cond, (&old(self).task(old(self).bq(q as int)[j]),), false)),
            forall|x: usize| old(self).valid_slot(x)
                && old(self).task(x).state is Blocked
                && #[trigger] old(self).bq(q as int).contains(x)
                && final(self).bq(q as int).contains(x) ==>
                call_ensures(cond, (&old(self).task(x),), false),
            forall|x: usize| old(self).valid_slot(x)
                && #[trigger] final(self).task(x) != old(self).task(x) ==> {
                &&& old(self).task(x).state is Blocked
                &&& old(self).bq(q as int).contains(x)
                &&& call_ensures(cond, (&old(self).task(x),), true)
                &&& final(self).spec_woken_as(*old(self), x, cpu, false)
                &&& !final(self).bq(q as int).contains(x)
            },
            forall|x: usize| old(self).valid_slot(x)
                && #[trigger] old(self).bq(q as int).contains(x)
                && !final(self).bq(q as int).contains(x) ==>
                final(self).task(x) != old(self).task(x),
            final(self).tasks@.len() == old(self).tasks@.len(),
            forall|qq: int| 0 <= qq < old(self).block_queues@.len() && qq != q ==>
                #[trigger] final(self).bq(qq) == old(self).bq(qq),
            final(self).block_queues@.len() == old(self).block_queues@.len(),
            forall|c: usize| old(self).proc_ok(c) ==>
                final(self).proc_ok(c) && final(self).current_of(c) == old(self).current_of(c),
    {
        self.wake_sweep_with_cond(cpu, q, false, true, &cond)
    }

    /// Wakes every parked waiter the predicate approves, into the shared
    /// global queue.
    pub fn wake_all_with_cond_to_global<F: Fn(&Task) -> bool>(&mut self, cpu: usize, q: usize,
        cond: F) -> (r: usize)
        requires
            old(self).wf(),
            old(self).proc_ok(cpu),
            old(self).valid_queue(q),
            forall|t: &Task| #[trigger] cond.requires((t,)),
        ensures
            final(self).wf(),
            final(self).proc_ok(cpu),
            r as int == old(self).bq(q as int).len() - final(self).bq(q as int).len(),
            // the waiters left behind keep their places: the final list is
            // the old list restricted, in order, to the entries still held
            final(self).bq(q as int) == old(self).bq(q as int).filter(
                |x: usize| final(self).bq(q as int).contains(x)),
            r == 0 ==> *final(self) == *old(self),
            r == 0 ==> forall|j: int| 0 <= j < old(self).bq(q as int).len() ==>
                (old(self).task(#[trigger] old(self).bq(q as int)[j]).state is Blocked ==>
                    call_ensures(cond, (&old(self).task(old(self).bq(q as int)[j]),), false)),
            forall|x: usize| old(self).valid_slot(x)
                && old(self).task(x).state is Blocked
                && #[trigger] old(self).bq(q as int).contains(x)
                && final(self).bq(q as int).contains(x) ==>
                call_ensures(cond, (&old(self).task(x),), false),
            forall|x: usize| old(self).valid_slot(x)
                && #[trigger] final(self).task(x) != old(self).task(x) ==> {
                &&& old(self).task(x).state is Blocked
                &&& old(self).bq(q as int).contains(x)
                &&& call_ensures(cond, (&old(self).task(x),), true)
                &&& final(self).spec_woken_as(*old(self), x, cpu, true)
                &&& !final(self).bq(q as int).contains(x)
            },
            forall|x: usize| old(self).valid_slot(x)
                && #[trigger] old(self).bq(q as int).contains(x)
                && !final(self).bq(q as int).contains(x) ==>
                final(self).task(x) != old(self).task(x),
            final(self).tasks@.len() == old(self).tasks@.len(),
            forall|qq: int| 0 <= qq < old(self).block_queues@.len() && qq != q ==>
                #[trigger] final(self).bq(qq) == old(self).bq(qq),
            final(self).block_queues@.len() == old(self).block_queues@.len(),
            forall|c: usize| old(self).proc_ok(c) ==>
                final(self).proc_ok(c) && final(self).current_of(c) == old(self).current_of(c),
    {
        self.wake_sweep_with_cond(cpu, q, true, true, &cond)
    }
}

} // verus!
