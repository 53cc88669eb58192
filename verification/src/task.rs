//! The unit of scheduling: a task record with a unique identity, role bits,
//! a four-state life cycle with a fixed transition relation, an exit code,
//! a preemption-disable counter, and the context slot that makes one object
//! serve both stackful threads and stackless coroutines.

use vstd::prelude::*;

use crate::reg_context::TaskContext;

verus! {

/// A unique identifier for a task. Identifiers are handed out by a
/// monotonically increasing counter and are never reused.
#[derive(Debug, Clone, Copy, PartialEq, Eq, Structural)]
pub struct TaskId(pub u64);

impl TaskId {
    /// Draws a fresh identifier from the counter and advances it.
    /// Every identifier drawn is the counter's value at the time, so two
    /// draws from the same counter never collide.
    pub fn new(counter: &mut u64) -> (r: TaskId)
        requires
            *old(counter) < u64::MAX,
        ensures
            r.0 == *old(counter),
            *final(counter) == *old(counter) + 1,
    {
        let id = TaskId(*counter);
        *counter = *counter + 1;
        id
    }

    /// The identifier as a plain number.
    pub fn as_u64(&self) -> (r: u64)
        ensures
            r == self.0,
    {
        self.0
    }
}

/// The possible states of a task.
///
/// The only permitted transitions are
/// `Runnable -> Blocking -> Blocked -> Runnable`,
/// `Blocking -> Runnable` (a wake racing the park),
/// `Runnable -> Runnable` (a wake that finds the task already awake) and
/// `Runnable -> Exited`; `Exited` is terminal.
#[derive(Debug, Clone, Copy, PartialEq, Eq, Structural)]
pub enum TaskState {
    /// Executing on some CPU, or ready in a scheduler queue.
    Runnable,
    /// Has decided to block but may not yet have saved its context;
    /// no other CPU may resume it.
    Blocking,
    /// Parked with its context safe to wake.
    Blocked,
    /// Terminal: the task will not run again.
    Exited,
}

/// The state-transition relation of the task life cycle. Every single-step
/// state change the runtime performs is an instance of this relation, and
/// the single-step operations carry that as a contract clause; a composite
/// operation (blocking, retiring the boot execution) chains two of its
/// edges — deciding to block, then parking.
pub open spec fn state_transition_allowed(from: TaskState, to: TaskState) -> bool {
    match (from, to) {
        (TaskState::Runnable, TaskState::Runnable) => true,
        (TaskState::Runnable, TaskState::Blocking) => true,
        (TaskState::Runnable, TaskState::Exited) => true,
        (TaskState::Blocking, TaskState::Blocked) => true,
        (TaskState::Blocking, TaskState::Runnable) => true,
        (TaskState::Blocked, TaskState::Runnable) => true,
        _ => false,
    }
}

/// Exit is final: no transition leaves `Exited`, so once a task has exited
/// nothing ever observes it as `Runnable`, `Blocking` or `Blocked` again.
pub proof fn lemma_exit_is_final(to: TaskState)
    ensures
        !state_transition_allowed(TaskState::Exited, to),
{
}

/// Which creation interface a task came from: a synchronous function run as
/// a stackful thread, or a future polled as a stackless coroutine.
#[derive(Debug, Clone, Copy, PartialEq, Eq, Structural)]
pub enum TaskKind {
    /// Created from a synchronous function; suspends by saving a register
    /// frame on an owned kernel stack.
    Thread,
    /// Created from a future; suspends by returning `Pending` from a poll.
    Coroutine,
}

/// Where a task currently is. The runtime keeps this placement record
/// up to date on every transition; the well-formedness invariant ties it
/// to the queue contents, which is what makes queue exclusivity and state
/// liveness provable.
#[derive(Debug, Clone, Copy, PartialEq, Eq, Structural)]
pub enum Location {
    /// The current task of the given CPU, in no queue.
    Running(usize),
    /// The current task of the given CPU, already enqueued on the given
    /// block queue but not yet parked (the `Blocking` window).
    Parking(usize, usize),
    /// In the local ready queue of the given CPU.
    ReadyLocal(usize),
    /// In the shared global ready queue.
    ReadyGlobal,
    /// Parked in the given block queue.
    Parked(usize),
    /// The idle task of the given CPU, currently not running.
    IdleSlot(usize),
    /// Held by no queue and no CPU: an exited task, or the boot execution
    /// after its processor has moved on.
    Detached,
}

/// A task: the unit of scheduling, whether thread or coroutine.
///
/// The task's code itself (the function body or the future) lives with the
/// executor; the record here carries everything the scheduler decides on.
#[derive(Debug, Clone, Copy)]
pub struct Task {
    /// Unique identity, never reused.
    pub id: TaskId,
    /// Whether this is a per-CPU idle task, picked when all queues are empty.
    pub is_idle: bool,
    /// Whether this is the initial (main) task; the kernel terminates when
    /// it exits.
    pub is_init: bool,
    /// Whether this stands for the boot execution that called the processor
    /// initialisation, kept so the first switch has a well-defined origin.
    pub is_original: bool,
    /// Which creation interface the task came from.
    pub kind: TaskKind,
    /// Life-cycle state.
    pub state: TaskState,
    /// Exit code, meaningful once the task is `Exited`.
    pub exit_code: i32,
    /// Static-priority scheduling level; lower value means higher priority.
    pub priority: usize,
    /// Preemption-disable counter; while it is nonzero the timer path may
    /// not preempt the running task.
    pub preempt_disable_count: u64,
    /// The saved register frame, present exactly while the task is
    /// suspended context-resident. `None` means the task resumes by being
    /// polled (or is currently running).
    pub saved_ctx: Option<TaskContext>,
    /// The kernel stack the saved frame lives in, owned by the task only
    /// while it is suspended context-resident.
    pub owned_stack: Option<u64>,
    /// Current placement, maintained by the runtime.
    pub location: Location,
}

impl Task {
    /// A fresh task record in the `Runnable` state with nothing saved.
    pub fn new(id: TaskId, kind: TaskKind, is_idle: bool, is_init: bool, is_original: bool,
        priority: usize, location: Location) -> (r: Task)
        ensures
            r == (Task {
                id,
                is_idle,
                is_init,
                is_original,
                kind,
                state: TaskState::Runnable,
                exit_code: 0,
                priority,
                preempt_disable_count: 0,
                saved_ctx: None::<TaskContext>,
                owned_stack: None::<u64>,
                location,
            }),
    {
        Task {
            id,
            is_idle,
            is_init,
            is_original,
            kind,
            state: TaskState::Runnable,
            exit_code: 0,
            priority,
            preempt_disable_count: 0,
            saved_ctx: None,
            owned_stack: None,
            location,
        }
    }

    /// Whether the task is currently context-resident: suspended with a
    /// saved register frame, to be resumed by the context-load routine
    /// rather than by a poll.
    pub fn is_thread(&self) -> (r: bool)
        ensures
            r == self.saved_ctx is Some,
    {
        self.saved_ctx.is_some()
    }

    /// Raises the preemption-disable counter by one.
    pub fn increase_preempt_disable_count(&mut self)
        requires
            old(self).preempt_disable_count < u64::MAX,
        ensures
            *final(self) == (Task {
                preempt_disable_count: spec_disable_preempt(old(self).preempt_disable_count),
                ..*old(self)
            }),
    {
        self.preempt_disable_count = self.preempt_disable_count + 1;
    }

    /// Lowers the preemption-disable counter by one. Calls are balanced
    /// against raises, so the counter is positive when this runs.
    pub fn decrease_preempt_disable_count(&mut self)
        requires
            old(self).preempt_disable_count > 0,
        ensures
            *final(self) == (Task {
                preempt_disable_count: spec_enable_preempt(old(self).preempt_disable_count),
                ..*old(self)
            }),
    {
        self.preempt_disable_count = self.preempt_disable_count - 1;
    }

    /// Whether the timer path may preempt the running task.
    pub fn can_preempt(&self) -> (r: bool)
        ensures
            r == (self.preempt_disable_count == 0),
    {
        self.preempt_disable_count == 0
    }
}

/// What disabling preemption does to the counter.
pub open spec fn spec_disable_preempt(count: u64) -> u64
    recommends
        count < u64::MAX,
{
    (count + 1) as u64
}

/// What enabling preemption does to the counter.
pub open spec fn spec_enable_preempt(count: u64) -> u64
    recommends
        count > 0,
{
    (count - 1) as u64
}

/// Preemption idempotence: disabling preemption twice and enabling it twice
/// leaves the counter exactly where it started.
pub proof fn lemma_preempt_disable_balanced(count: u64)
    requires
        count + 2 <= u64::MAX,
    ensures
        spec_enable_preempt(spec_enable_preempt(
            spec_disable_preempt(spec_disable_preempt(count)))) == count,
{
}

/// Round-trip of a saved context: the frame stored into a suspending
/// task's context slot is the very frame the resume path hands back —
/// every general register, the exception program counter and the status
/// register bit-exact. The switch's contract returns exactly the stored
/// frame in its load action, so this identity carries through a full
/// suspend-resume cycle.
pub proof fn lemma_context_round_trip(t: Task, frame: TaskContext)
    ensures
        ({
            let suspended = Task { saved_ctx: Some(frame), ..t };
            let resumed = suspended.saved_ctx->0;
            &&& resumed == frame
            &&& resumed.regs.ra == frame.regs.ra
            &&& resumed.regs.sp == frame.regs.sp
            &&& resumed.regs.gp == frame.regs.gp
            &&& resumed.regs.tp == frame.regs.tp
            &&& resumed.regs.t0 == frame.regs.t0
            &&& resumed.regs.t1 == frame.regs.t1
            &&& resumed.regs.t2 == frame.regs.t2
            &&& resumed.regs.t3 == frame.regs.t3
            &&& resumed.regs.t4 == frame.regs.t4
            &&& resumed.regs.t5 == frame.regs.t5
            &&& resumed.regs.t6 == frame.regs.t6
            &&& resumed.regs.s0 == frame.regs.s0
            &&& resumed.regs.s1 == frame.regs.s1
            &&& resumed.regs.s2 == frame.regs.s2
            &&& resumed.regs.s3 == frame.regs.s3
            &&& resumed.regs.s4 == frame.regs.s4
            &&& resumed.regs.s5 == frame.regs.s5
            &&& resumed.regs.s6 == frame.regs.s6
            &&& resumed.regs.s7 == frame.regs.s7
            &&& resumed.regs.s8 == frame.regs.s8
            &&& resumed.regs.s9 == frame.regs.s9
            &&& resumed.regs.s10 == frame.regs.s10
            &&& resumed.regs.s11 == frame.regs.s11
            &&& resumed.regs.a0 == frame.regs.a0
            &&& resumed.regs.a1 == frame.regs.a1
            &&& resumed.regs.a2 == frame.regs.a2
            &&& resumed.regs.a3 == frame.regs.a3
            &&& resumed.regs.a4 == frame.regs.a4
            &&& resumed.regs.a5 == frame.regs.a5
            &&& resumed.regs.a6 == frame.regs.a6
            &&& resumed.regs.a7 == frame.regs.a7
            &&& resumed.sepc == frame.sepc
            &&& resumed.sstatus == frame.sstatus
        }),
{
}

} // verus!
