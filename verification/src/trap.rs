//! Trap-handler dispatch: four registries keyed by numeric cause —
//! interrupts, exceptions, external interrupts and system calls — plus the
//! timer arithmetic. A registration stores an opaque handler token; the
//! executor owns the actual handler code and invokes whatever token the
//! verified lookup returns, falling back to the registry's default for an
//! unhandled cause.

use vstd::prelude::*;

verus! {

/// The timer interrupt rate the runtime programs, in ticks per second.
pub const TIMER_FREQUENCY: usize = 1000;

/// A registry from numeric cause to handler token, with a fallback token
/// returned for causes nobody registered.
#[derive(Debug)]
pub struct HandlerMap {
    /// Registered entries; each key appears at most once.
    pub entries: Vec<(usize, u64)>,
    /// The token reported for unregistered causes.
    pub fallback: u64,
}

impl HandlerMap {
    /// Keys are unique, so a lookup has one answer.
    pub open spec fn wf(self) -> bool {
        forall|i: int, j: int|
            0 <= i < self.entries@.len() && 0 <= j < self.entries@.len() && i != j
            ==> (#[trigger] self.entries@[i]).0 != (#[trigger] self.entries@[j]).0
    }

    /// Whether some handler is registered for a key.
    pub open spec fn spec_contains(self, key: usize) -> bool {
        exists|i: int| 0 <= i < self.entries@.len() && (#[trigger] self.entries@[i]).0 == key
    }

    /// The token a lookup returns for a key.
    pub open spec fn spec_get(self, key: usize) -> u64 {
        if self.spec_contains(key) {
            self.entries@[self.spec_index_of(key)].1
        } else {
            self.fallback
        }
    }

    /// The entry index holding a key, when one is registered.
    pub open spec fn spec_index_of(self, key: usize) -> int {
        choose|i: int| 0 <= i < self.entries@.len() && (#[trigger] self.entries@[i]).0 == key
    }

    /// A fresh registry answering every cause with the fallback token.
    pub fn new(fallback: u64) -> (r: HandlerMap)
        ensures
            r.wf(),
            r.entries@.len() == 0,
            r.fallback == fallback,
            forall|key: usize| !(#[trigger] r.spec_contains(key)),
    {
        HandlerMap { entries: Vec::new(), fallback }
    }

    /// Registers a handler token for a cause, replacing any prior
    /// registration for the same cause.
    pub fn insert(&mut self, key: usize, value: u64)
        requires
            old(self).wf(),
            old(self).entries@.len() < usize::MAX,
        ensures
            final(self).wf(),
            final(self).spec_contains(key),
            final(self).spec_get(key) == value,
            final(self).fallback == old(self).fallback,
            forall|k: usize| k != key ==>
                #[trigger] final(self).spec_contains(k) == old(self).spec_contains(k),
            forall|k: usize| k != key && old(self).spec_contains(k) ==>
                #[trigger] final(self).spec_get(k) == old(self).spec_get(k),
    {
        let ghost o = *old(self);
        let mut i: usize = 0;
        let len = self.entries.len();
        while i < len
            invariant
                o == *old(self),
                *self == o,
                o.wf(),
                i <= len,
                len == o.entries@.len(),
                forall|j: int| 0 <= j < i ==> (#[trigger] o.entries@[j]).0 != key,
            decreases len - i,
        {
            if self.entries[i].0 == key {
                self.entries[i] = (key, value);
                proof {
                    let n = *self;
                    assert(n.entries@[i as int].0 == key);
                    assert forall|k: usize| k != key implies
                        #[trigger] n.spec_contains(k) == o.spec_contains(k) by {
                        if n.spec_contains(k) {
                            let j = choose|j: int| 0 <= j < n.entries@.len()
                                && (#[trigger] n.entries@[j]).0 == k;
                            assert(o.entries@[j].0 == k);
                        }
                        if o.spec_contains(k) {
                            let j = choose|j: int| 0 <= j < o.entries@.len()
                                && (#[trigger] o.entries@[j]).0 == k;
                            assert(n.entries@[j].0 == k);
                        }
                    }
                    assert forall|k: usize| k != key && o.spec_contains(k) implies
                        #[trigger] n.spec_get(k) == o.spec_get(k) by {
                        assert(n.spec_contains(k));
                        let j = n.spec_index_of(k);
                        assert(n.entries@[j].0 == k);
                        let jo = o.spec_index_of(k);
                        assert(o.entries@[jo].0 == k);
                        assert(n.entries@[jo] == o.entries@[jo]);
                        assert(j == jo);
                    }
                }
                return;
            }
            i = i + 1;
        }
        self.entries.push((key, value));
        proof {
            let n = *self;
            assert(n.entries@[len as int] == (key, value));
            assert forall|i2: int, j: int|
                0 <= i2 < n.entries@.len() && 0 <= j < n.entries@.len() && i2 != j
                implies (#[trigger] n.entries@[i2]).0 != (#[trigger] n.entries@[j]).0 by {
                if i2 < len && j < len {
                    assert(n.entries@[i2] == o.entries@[i2]);
                    assert(n.entries@[j] == o.entries@[j]);
                }
            }
            assert forall|k: usize| k != key implies
                #[trigger] n.spec_contains(k) == o.spec_contains(k) by {
                if n.spec_contains(k) {
                    let j = choose|j: int| 0 <= j < n.entries@.len()
                        && (#[trigger] n.entries@[j]).0 == k;
                    assert(j < len);
                    assert(o.entries@[j].0 == k);
                }
                if o.spec_contains(k) {
                    let j = choose|j: int| 0 <= j < o.entries@.len()
                        && (#[trigger] o.entries@[j]).0 == k;
                    assert(n.entries@[j].0 == k);
                }
            }
            assert forall|k: usize| k != key && o.spec_contains(k) implies
                #[trigger] n.spec_get(k) == o.spec_get(k) by {
                assert(n.spec_contains(k));
                let j = n.spec_index_of(k);
                assert(n.entries@[j].0 == k);
                assert(j < len);
                let jo = o.spec_index_of(k);
                assert(o.entries@[jo].0 == k);
                assert(n.entries@[jo] == o.entries@[jo]);
                assert(j == jo);
            }
        }
    }

    /// Removes the registration for a cause, restoring the fallback for
    /// it. Every other registration survives untouched.
    pub fn remove(&mut self, key: usize)
        requires
            old(self).wf(),
        ensures
            final(self).wf(),
            !final(self).spec_contains(key),
            final(self).fallback == old(self).fallback,
            forall|k: usize| k != key ==>
                #[trigger] final(self).spec_contains(k) == old(self).spec_contains(k),
            forall|k: usize| k != key && old(self).spec_contains(k) ==>
                #[trigger] final(self).spec_get(k) == old(self).spec_get(k),
            !old(self).spec_contains(key) ==> *final(self) == *old(self),
    {
        let ghost o = *old(self);
        let mut i: usize = 0;
        let len = self.entries.len();
        while i < len
            invariant
                o == *old(self),
                *self == o,
                o.wf(),
                i <= len,
                len == o.entries@.len(),
                forall|j: int| 0 <= j < i ==> (#[trigger] o.entries@[j]).0 != key,
            decreases len - i,
        {
            if self.entries[i].0 == key {
                self.entries.remove(i);
                proof {
                    let n = *self;
                    assert forall|i2: int, j: int|
                        0 <= i2 < n.entries@.len() && 0 <= j < n.entries@.len() && i2 != j
                        implies (#[trigger] n.entries@[i2]).0
                            != (#[trigger] n.entries@[j]).0 by {
                        let m = |x: int| if x < i { x } else { x + 1 };
                        assert(n.entries@[i2] == o.entries@[m(i2)]);
                        assert(n.entries@[j] == o.entries@[m(j)]);
                    }
                    assert(!n.spec_contains(key)) by {
                        if n.spec_contains(key) {
                            let j = choose|j: int| 0 <= j < n.entries@.len()
                                && (#[trigger] n.entries@[j]).0 == key;
                            if j < i {
                                assert(o.entries@[j].0 == key);
                            } else {
                                assert(o.entries@[j + 1].0 == key);
                                assert(o.entries@[i as int].0 == key);
                            }
                        }
                    }
                    assert forall|k: usize| k != key implies
                        #[trigger] n.spec_contains(k) == o.spec_contains(k) by {
                        if n.spec_contains(k) {
                            let j = choose|j: int| 0 <= j < n.entries@.len()
                                && (#[trigger] n.entries@[j]).0 == k;
                            if j < i {
                                assert(o.entries@[j].0 == k);
                            } else {
                                assert(o.entries@[j + 1].0 == k);
                            }
                        }
                        if o.spec_contains(k) {
                            let j = choose|j: int| 0 <= j < o.entries@.len()
                                && (#[trigger] o.entries@[j]).0 == k;
                            assert(j != i);
                            if j < i {
                                assert(n.entries@[j].0 == k);
                            } else {
                                assert(n.entries@[j - 1].0 == k);
                            }
                        }
                    }
                    assert forall|k: usize| k != key && o.spec_contains(k) implies
                        #[trigger] n.spec_get(k) == o.spec_get(k) by {
                        assert(n.spec_contains(k));
                        let jn = n.spec_index_of(k);
                        assert(n.entries@[jn].0 == k);
                        let jo = o.spec_index_of(k);
                        assert(o.entries@[jo].0 == k);
                        if jn < i {
                            assert(n.entries@[jn] == o.entries@[jn]);
                            assert(jn == jo);
                        } else {
                            assert(n.entries@[jn] == o.entries@[jn + 1]);
                            assert(o.entries@[jn + 1].0 == k);
                            assert(jn + 1 == jo);
                        }
                    }
                }
                return;
            }
            i = i + 1;
        }
        proof {
            if self.spec_contains(key) {
                let j = choose|j: int| 0 <= j < self.entries@.len()
                    && (#[trigger] self.entries@[j]).0 == key;
            }
        }
    }

    /// Looks up the handler token for a cause, or the fallback when none
    /// is registered.
    pub fn get(&self, key: usize) -> (r: u64)
        requires
            self.wf(),
        ensures
            r == self.spec_get(key),
            self.spec_contains(key) ==> exists|i: int|
                0 <= i < self.entries@.len() && #[trigger] self.entries@[i] == (key, r),
            !self.spec_contains(key) ==> r == self.fallback,
    {
        let mut i: usize = 0;
        let len = self.entries.len();
        while i < len
            invariant
                self.wf(),
                i <= len,
                len == self.entries@.len(),
                forall|j: int| 0 <= j < i ==> (#[trigger] self.entries@[j]).0 != key,
            decreases len - i,
        {
            if self.entries[i].0 == key {
                proof {
                    let j = self.spec_index_of(key);
                    assert(self.entries@[j].0 == key);
                    assert(j == i as int);
                }
                return self.entries[i].1;
            }
            i = i + 1;
        }
        proof {
            if self.spec_contains(key) {
                let j = choose|j: int| 0 <= j < self.entries@.len()
                    && (#[trigger] self.entries@[j]).0 == key;
            }
        }
        self.fallback
    }
}

/// The four dispatch registries of the trap front end. Interrupts and
/// exceptions are looked up by cause; external interrupts are routed by
/// IRQ number from the external-interrupt cause, and system calls by
/// syscall number from the environment-call cause.
#[derive(Debug)]
pub struct TrapDispatcher {
    /// Handlers for interrupt causes.
    pub interrupt_handlers: HandlerMap,
    /// Handlers for exception causes.
    pub exception_handlers: HandlerMap,
    /// Handlers for external-interrupt numbers.
    pub extintr_handlers: HandlerMap,
    /// Handlers for system-call numbers.
    pub syscall_handlers: HandlerMap,
}

impl TrapDispatcher {
    /// All four registries are well formed.
    pub open spec fn wf(self) -> bool {
        &&& self.interrupt_handlers.wf()
        &&& self.exception_handlers.wf()
        &&& self.extintr_handlers.wf()
        &&& self.syscall_handlers.wf()
    }

    /// Empty registries with one fallback token each, reported for any
    /// unhandled interrupt, exception, external interrupt or system call.
    pub fn new(unhandled_interrupt: u64, unhandled_exception: u64, unhandled_extintr: u64,
        unhandled_syscall: u64) -> (r: TrapDispatcher)
        ensures
            r.wf(),
            r.interrupt_handlers.fallback == unhandled_interrupt,
            r.exception_handlers.fallback == unhandled_exception,
            r.extintr_handlers.fallback == unhandled_extintr,
            r.syscall_handlers.fallback == unhandled_syscall,
    {
        TrapDispatcher {
            interrupt_handlers: HandlerMap::new(unhandled_interrupt),
            exception_handlers: HandlerMap::new(unhandled_exception),
            extintr_handlers: HandlerMap::new(unhandled_extintr),
            syscall_handlers: HandlerMap::new(unhandled_syscall),
        }
    }

    /// Registers a trap handler for an interrupt or exception cause,
    /// replacing any prior registration for that cause.
    pub fn register_trap_handler(&mut self, is_interrupt: bool, cause: usize, handler: u64)
        requires
            old(self).wf(),
            is_interrupt ==> old(self).interrupt_handlers.entries@.len() < usize::MAX,
            !is_interrupt ==> old(self).exception_handlers.entries@.len() < usize::MAX,
        ensures
            final(self).wf(),
            is_interrupt ==> {
                &&& final(self).interrupt_handlers.spec_get(cause) == handler
                &&& final(self).exception_handlers == old(self).exception_handlers
            },
            !is_interrupt ==> {
                &&& final(self).exception_handlers.spec_get(cause) == handler
                &&& final(self).interrupt_handlers == old(self).interrupt_handlers
            },
            final(self).extintr_handlers == old(self).extintr_handlers,
            final(self).syscall_handlers == old(self).syscall_handlers,
    {
        if is_interrupt {
            self.interrupt_handlers.insert(cause, handler);
        } else {
            self.exception_handlers.insert(cause, handler);
        }
    }

    /// Registers a handler for an external-interrupt number.
    pub fn register_extintr_handler(&mut self, irq_num: usize, handler: u64)
        requires
            old(self).wf(),
            old(self).extintr_handlers.entries@.len() < usize::MAX,
        ensures
            final(self).wf(),
            final(self).extintr_handlers.spec_get(irq_num) == handler,
            final(self).interrupt_handlers == old(self).interrupt_handlers,
            final(self).exception_handlers == old(self).exception_handlers,
            final(self).syscall_handlers == old(self).syscall_handlers,
    {
        self.extintr_handlers.insert(irq_num, handler);
    }

    /// Registers a handler for a system-call number.
    pub fn register_syscall_handler(&mut self, sc_num: usize, handler: u64)
        requires
            old(self).wf(),
            old(self).syscall_handlers.entries@.len() < usize::MAX,
        ensures
            final(self).wf(),
            final(self).syscall_handlers.spec_get(sc_num) == handler,
            final(self).interrupt_handlers == old(self).interrupt_handlers,
            final(self).exception_handlers == old(self).exception_handlers,
            final(self).extintr_handlers == old(self).extintr_handlers,
    {
        self.syscall_handlers.insert(sc_num, handler);
    }

    /// The first dispatch step: routes a trap cause to the token of its
    /// interrupt or exception handler.
    pub fn trap_handler_token(&self, is_interrupt: bool, cause: usize) -> (r: u64)
        requires
            self.wf(),
        ensures
            is_interrupt ==> r == self.interrupt_handlers.spec_get(cause),
            !is_interrupt ==> r == self.exception_handlers.spec_get(cause),
    {
        if is_interrupt {
            self.interrupt_handlers.get(cause)
        } else {
            self.exception_handlers.get(cause)
        }
    }

    /// The external-interrupt dispatch step, run by the default handler of
    /// the external-interrupt cause once the controller has produced the
    /// IRQ number.
    pub fn extintr_handler_token(&self, irq_num: usize) -> (r: u64)
        requires
            self.wf(),
        ensures
            r == self.extintr_handlers.spec_get(irq_num),
    {
        self.extintr_handlers.get(irq_num)
    }

    /// The system-call dispatch step, run by the default handler of the
    /// environment-call exception: advances the program counter past the
    /// 4-byte `ecall`, extracts the number and the six arguments, and
    /// names the handler to run. The handler's result goes back through
    /// `set_ret_code`.
    pub fn syscall_dispatch(&self, ctx: &mut crate::reg_context::TaskContext)
        -> (r: (u64, usize, [usize; 6]))
        requires
            self.wf(),
            old(ctx).sepc + 4 <= usize::MAX,
        ensures
            final(ctx).sepc == old(ctx).sepc + 4,
            final(ctx).regs == old(ctx).regs,
            r.0 == self.syscall_handlers.spec_get(old(ctx).regs.a7),
            r.1 == old(ctx).regs.a7,
            r.2[0] == old(ctx).regs.a0,
            r.2[1] == old(ctx).regs.a1,
            r.2[2] == old(ctx).regs.a2,
            r.2[3] == old(ctx).regs.a3,
            r.2[4] == old(ctx).regs.a4,
            r.2[5] == old(ctx).regs.a5,
    {
        ctx.step_sepc();
        let num = ctx.get_syscall_num();
        let args = ctx.get_syscall_args();
        let token = self.syscall_handlers.get(num);
        (token, num, args)
    }
}

/// The deadline the timer interrupt handler programs next: one tick period
/// past the current time, with the period derived from the CPU's timebase
/// frequency and the fixed tick rate.
pub fn next_timer_deadline(now: usize, timebase_frequency: usize) -> (r: usize)
    requires
        now + timebase_frequency / TIMER_FREQUENCY <= usize::MAX,
    ensures
        r == now + timebase_frequency / TIMER_FREQUENCY,
{
    now + timebase_frequency / TIMER_FREQUENCY
}

/// The preemption decision of the timer interrupt handler: preempt exactly
/// when the tick accounting asked for a reschedule and the running task
/// has not disabled preemption.
pub fn should_preempt(need_resched: bool, preempt_disable_count: u64) -> (r: bool)
    ensures
        r == (need_resched && preempt_disable_count == 0),
{
    need_resched && preempt_disable_count == 0
}

/// The host hook giving the timer tick rate: the frequency, in Hz, at
/// which the time register advances on the current CPU. Invoked once per
/// CPU; the result must not change while the CPU runs.
pub trait CurrentTimebaseFrequency {
    /// The current CPU's timebase frequency in Hz.
    fn current_timebase_frequency() -> usize;
}

} // verus!
