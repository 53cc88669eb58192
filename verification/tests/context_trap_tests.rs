//! The register frame accessors, the stack pool, and the trap-dispatch
//! registries with the timer arithmetic.

use task_management::reg_context::TaskContext;
use task_management::stack_pool::StackPool;
use task_management::trap::{
    next_timer_deadline, should_preempt, HandlerMap, TrapDispatcher, TIMER_FREQUENCY,
};

#[test]
fn context_accessors_read_back_what_was_set() {
    let mut ctx = TaskContext::new();
    assert_eq!(ctx.get_pc(), 0);
    ctx.set_pc(0x8000_0000);
    assert_eq!(ctx.get_pc(), 0x8000_0000);
    ctx.set_ret_code(55);
    assert_eq!(ctx.get_ret_code(), 55);
    ctx.set_tls(0x200);
    assert_eq!(ctx.regs.tp, 0x200);
    ctx.set_ra(0x4444);
    assert_eq!(ctx.regs.ra, 0x4444);
    ctx.regs.sp = 0x9000;
    assert_eq!(ctx.get_sp(), 0x9000);
}

#[test]
fn pc_steps_forward_and_rewinds_by_ecall_length() {
    let mut ctx = TaskContext::new();
    ctx.set_pc(0x1000);
    ctx.step_sepc();
    assert_eq!(ctx.get_pc(), 0x1004);
    ctx.rewind_pc();
    assert_eq!(ctx.get_pc(), 0x1000);
}

#[test]
fn syscall_registers_carry_number_and_arguments() {
    let mut ctx = TaskContext::new();
    ctx.set_arg0(1);
    ctx.set_arg1(2);
    ctx.set_arg2(3);
    ctx.regs.a3 = 4;
    ctx.regs.a4 = 5;
    ctx.regs.a5 = 6;
    ctx.regs.a7 = 93;
    assert_eq!(ctx.get_syscall_num(), 93);
    assert_eq!(ctx.get_syscall_args(), [1, 2, 3, 4, 5, 6]);
}

#[test]
fn status_bits_fold_back_into_the_frame() {
    let mut ctx = TaskContext::new();
    ctx.sstatus = 0x100;
    ctx.or_status(0x2);
    assert_eq!(ctx.sstatus, 0x102);
}

#[test]
fn stack_pool_recycles_before_allocating() {
    let mut pool = StackPool::new();
    let mut next: u64 = 0;
    let a = pool.fetch(&mut next);
    assert_eq!(a, 0);
    assert_eq!(next, 1);
    let old = pool.swap_curr_stack(Some(a));
    assert_eq!(old, None);
    pool.recycle_stack(7);
    let b = pool.fetch(&mut next);
    assert_eq!(b, 7);
    assert_eq!(next, 1);
    let c = pool.fetch(&mut next);
    assert_eq!(c, 1);
    assert_eq!(next, 2);
}

#[test]
fn handler_map_registers_replaces_and_falls_back() {
    let mut m = HandlerMap::new(99);
    assert_eq!(m.get(5), 99);
    m.insert(5, 10);
    m.insert(7, 11);
    assert_eq!(m.get(5), 10);
    assert_eq!(m.get(7), 11);
    m.insert(5, 12);
    assert_eq!(m.get(5), 12);
    assert_eq!(m.get(7), 11);
    m.remove(5);
    assert_eq!(m.get(5), 99);
    assert_eq!(m.get(7), 11);
}

#[test]
fn trap_dispatcher_routes_by_cause() {
    let mut d = TrapDispatcher::new(1, 2, 3, 4);
    d.register_trap_handler(true, 5, 100);
    d.register_trap_handler(false, 8, 200);
    d.register_extintr_handler(9, 300);
    d.register_syscall_handler(93, 400);
    assert_eq!(d.trap_handler_token(true, 5), 100);
    assert_eq!(d.trap_handler_token(false, 8), 200);
    assert_eq!(d.trap_handler_token(true, 6), 1);
    assert_eq!(d.trap_handler_token(false, 6), 2);
    assert_eq!(d.extintr_handler_token(9), 300);
    assert_eq!(d.extintr_handler_token(10), 3);
}

#[test]
fn syscall_dispatch_advances_pc_and_extracts_arguments() {
    let mut d = TrapDispatcher::new(1, 2, 3, 4);
    d.register_syscall_handler(64, 777);
    let mut ctx = TaskContext::new();
    ctx.set_pc(0x2000);
    ctx.regs.a7 = 64;
    ctx.set_arg0(40);
    ctx.set_arg1(41);
    let (token, num, args) = d.syscall_dispatch(&mut ctx);
    assert_eq!(token, 777);
    assert_eq!(num, 64);
    assert_eq!(args[0], 40);
    assert_eq!(args[1], 41);
    assert_eq!(ctx.get_pc(), 0x2004);
    // an unregistered number reports the fallback
    ctx.regs.a7 = 65;
    let (token, _, _) = d.syscall_dispatch(&mut ctx);
    assert_eq!(token, 4);
}

#[test]
fn timer_deadline_is_one_tick_period_ahead() {
    // a 10 MHz timebase at 1000 ticks per second advances 10000 counts
    assert_eq!(TIMER_FREQUENCY, 1000);
    assert_eq!(next_timer_deadline(500_000, 10_000_000), 510_000);
    assert_eq!(next_timer_deadline(0, 12_345_678), 12_345);
}

#[test]
fn preemption_needs_resched_and_zero_count() {
    assert!(should_preempt(true, 0));
    assert!(!should_preempt(true, 1));
    assert!(!should_preempt(false, 0));
    assert!(!should_preempt(false, 3));
}

#[test]
fn task_id_counter_is_monotonic() {
    let mut counter: u64 = 1;
    let a = task_management::task::TaskId::new(&mut counter);
    let b = task_management::task::TaskId::new(&mut counter);
    assert_eq!(a.as_u64(), 1);
    assert_eq!(b.as_u64(), 2);
    assert_ne!(a.as_u64(), b.as_u64());
    assert_eq!(counter, 3);
}
