//! End-to-end scenarios for the task runtime: the model is driven exactly
//! as a hardware executor would drive it, with register frames passed in
//! and switch actions observed.

use task_management::reg_context::TaskContext;
use task_management::runtime::{
    block_current_async, current_can_preempt, current_disable_preempt, current_enable_preempt,
    current_id, current_processor_id, current_ptr, exit_current, exit_current_async,
    init_main_processor, init_secondary_processor, preempt_current, scheduler_tick_current,
    spawn_to_global, spawn_to_local, spawn_to_local_async, spawn_to_local_with_priority,
    start_main_processor, start_secondary_processor, yield_current_to_local, SwitchAction,
};
use task_management::task::{TaskState};

fn boot_single_cpu() -> (task_management::runtime::Runtime, usize) {
    let mut rt = init_main_processor(0, 1);
    let act = start_main_processor(&mut rt, 0, TaskContext::new());
    assert!(matches!(act, SwitchAction::Poll));
    let main_slot = current_ptr(&rt, 0);
    (rt, main_slot)
}

#[test]
fn spawn_coroutine_exit_code_42() {
    // a coroutine spawned from main runs, exits with 42, and the code is
    // observable before the record is dropped; main then resumes
    let (mut rt, main_slot) = boot_single_cpu();
    assert!(rt.tasks[main_slot].is_init);
    let co = spawn_to_local_async(&mut rt, 0);

    let mut main_frame = TaskContext::new();
    main_frame.set_pc(0x1000);
    let act = yield_current_to_local(&mut rt, 0, main_frame);
    assert!(matches!(act, SwitchAction::Poll));
    assert_eq!(current_ptr(&rt, 0), co);

    let act = exit_current_async(&mut rt, 0, 42);
    assert_eq!(rt.tasks[co].exit_code, 42);
    assert!(matches!(rt.tasks[co].state, TaskState::Exited));

    // main resumes from its saved frame, bit-exact
    assert_eq!(current_ptr(&rt, 0), main_slot);
    match act {
        SwitchAction::LoadContext(f) => assert_eq!(f.sepc, 0x1000),
        SwitchAction::Poll => panic!("expected a context load"),
    }

    let _ = exit_current(&mut rt, 0, 0);
    assert_eq!(rt.tasks[main_slot].exit_code, 0);
    assert!(matches!(rt.tasks[main_slot].state, TaskState::Exited));
}

#[test]
fn two_tasks_alternate_in_fifo_order() {
    // two default-priority tasks spawned A then B run in the order
    // A, B, A, B as everyone keeps yielding
    let (mut rt, main_slot) = boot_single_cpu();
    let a = spawn_to_local(&mut rt, 0);
    let b = spawn_to_local(&mut rt, 0);

    let _ = yield_current_to_local(&mut rt, 0, TaskContext::new());
    assert_eq!(current_ptr(&rt, 0), a);
    let _ = yield_current_to_local(&mut rt, 0, TaskContext::new());
    assert_eq!(current_ptr(&rt, 0), b);
    let _ = yield_current_to_local(&mut rt, 0, TaskContext::new());
    assert_eq!(current_ptr(&rt, 0), main_slot);
    let _ = yield_current_to_local(&mut rt, 0, TaskContext::new());
    assert_eq!(current_ptr(&rt, 0), a);
    let _ = yield_current_to_local(&mut rt, 0, TaskContext::new());
    assert_eq!(current_ptr(&rt, 0), b);
}

#[test]
fn static_priorities_run_high_to_low() {
    // tasks at levels 0, 3 and 7 run to quiescence in priority order,
    // whatever order they were spawned in
    let (mut rt, _main) = boot_single_cpu();
    let p7 = spawn_to_local_with_priority(&mut rt, 0, 7).unwrap();
    let p3 = spawn_to_local_with_priority(&mut rt, 0, 3).unwrap();
    let p0 = spawn_to_local_with_priority(&mut rt, 0, 0).unwrap();

    // main is at level 0 and was spawned first there, so it runs before
    // the other level-0 task; retire it
    let _ = exit_current(&mut rt, 0, 0);
    assert_eq!(current_ptr(&rt, 0), p0);
    let _ = exit_current(&mut rt, 0, 0);
    assert_eq!(current_ptr(&rt, 0), p3);
    let _ = exit_current(&mut rt, 0, 0);
    assert_eq!(current_ptr(&rt, 0), p7);
}

#[test]
fn invalid_priority_is_rejected() {
    let (mut rt, _main) = boot_single_cpu();
    assert!(spawn_to_local_with_priority(&mut rt, 0, 8).is_err());
    assert!(spawn_to_local_with_priority(&mut rt, 0, -1).is_err());
    assert!(spawn_to_local_with_priority(&mut rt, 0, 7).is_ok());
    assert!(task_management::runtime::change_current_priority(&mut rt, 0, 9).is_err());
    assert!(task_management::runtime::change_current_priority(&mut rt, 0, 2).is_ok());
    let cur = current_ptr(&rt, 0);
    assert_eq!(rt.tasks[cur].priority, 2);
}

#[test]
fn wake_fanout_counts_five() {
    // five tasks block on one queue; wake-all reports exactly five and
    // every woken task is runnable again; wake-one on a queue with no
    // parked waiter reports zero
    let (mut rt, main_slot) = boot_single_cpu();
    let q = rt.new_block_queue();
    let mut blocked = Vec::new();
    for _ in 0..5 {
        blocked.push(spawn_to_local_async(&mut rt, 0));
    }
    // main yields; each spawned task blocks on the queue in turn
    let _ = yield_current_to_local(&mut rt, 0, TaskContext::new());
    for _ in 0..5 {
        let cur = current_ptr(&rt, 0);
        assert!(blocked.contains(&cur));
        let _ = block_current_async(&mut rt, 0, q);
    }
    assert_eq!(current_ptr(&rt, 0), main_slot);
    for s in &blocked {
        assert!(matches!(rt.tasks[*s].state, TaskState::Blocked));
        assert!(rt.block_queues[q].waiters.contains(s));
    }

    let woken = rt.wake_all_to_local(0, q);
    assert_eq!(woken, 5);
    for s in &blocked {
        assert!(matches!(rt.tasks[*s].state, TaskState::Runnable));
    }
    assert_eq!(rt.wake_one_to_local(0, q), 0);

    let q2 = rt.new_block_queue();
    assert_eq!(rt.wake_one_to_local(0, q2), 0);
    assert_eq!(rt.wake_all_to_local(0, q2), 0);
}

#[test]
fn wake_one_takes_first_parked_waiter() {
    let (mut rt, _main) = boot_single_cpu();
    let q = rt.new_block_queue();
    let t1 = spawn_to_local_async(&mut rt, 0);
    let t2 = spawn_to_local_async(&mut rt, 0);
    let _ = yield_current_to_local(&mut rt, 0, TaskContext::new());
    assert_eq!(current_ptr(&rt, 0), t1);
    let _ = block_current_async(&mut rt, 0, q);
    assert_eq!(current_ptr(&rt, 0), t2);
    let _ = block_current_async(&mut rt, 0, q);

    assert_eq!(rt.wake_one_to_local(0, q), 1);
    assert!(matches!(rt.tasks[t1].state, TaskState::Runnable));
    assert!(matches!(rt.tasks[t2].state, TaskState::Blocked));
    assert_eq!(rt.wake_one_to_local(0, q), 1);
    assert!(matches!(rt.tasks[t2].state, TaskState::Runnable));
    assert_eq!(rt.wake_one_to_local(0, q), 0);
}

#[test]
fn preemption_restores_callee_saved_registers() {
    // a tick requests a reschedule; the preempted task's trap frame is
    // restored bit-exact when the task is picked again
    let (mut rt, main_slot) = boot_single_cpu();
    let other = spawn_to_local(&mut rt, 0);

    assert!(scheduler_tick_current(&mut rt, 0));
    assert!(current_can_preempt(&rt, 0));

    let mut frame = TaskContext::new();
    frame.regs.s0 = 0x10;
    frame.regs.s1 = 0x11;
    frame.regs.s2 = 0x12;
    frame.regs.s3 = 0x13;
    frame.regs.s4 = 0x14;
    frame.regs.s5 = 0x15;
    frame.regs.s6 = 0x16;
    frame.regs.s7 = 0x17;
    frame.regs.s8 = 0x18;
    frame.regs.s9 = 0x19;
    frame.regs.s10 = 0x1a;
    frame.regs.s11 = 0x1b;
    frame.sepc = 0x8020_0000;
    frame.sstatus = 0x120;
    let checksum_before: usize = frame.regs.s0 + frame.regs.s1 + frame.regs.s2
        + frame.regs.s3 + frame.regs.s4 + frame.regs.s5 + frame.regs.s6 + frame.regs.s7
        + frame.regs.s8 + frame.regs.s9 + frame.regs.s10 + frame.regs.s11;

    let act = preempt_current(&mut rt, 0, frame);
    assert!(matches!(act, SwitchAction::Poll));
    assert_eq!(current_ptr(&rt, 0), other);

    // the other task finishes; the preempted one comes back via its frame
    let act = exit_current(&mut rt, 0, 0);
    assert_eq!(current_ptr(&rt, 0), main_slot);
    match act {
        SwitchAction::LoadContext(f) => {
            let checksum_after: usize = f.regs.s0 + f.regs.s1 + f.regs.s2 + f.regs.s3
                + f.regs.s4 + f.regs.s5 + f.regs.s6 + f.regs.s7 + f.regs.s8 + f.regs.s9
                + f.regs.s10 + f.regs.s11;
            assert_eq!(checksum_after, checksum_before);
            assert_eq!(f, frame);
        },
        SwitchAction::Poll => panic!("expected a context load"),
    }
}

#[test]
fn preempt_disable_counter_balances() {
    // disable; disable; enable; enable leaves the counter where it began
    let (mut rt, main_slot) = boot_single_cpu();
    let initial = rt.tasks[main_slot].preempt_disable_count;
    current_disable_preempt(&mut rt, 0);
    assert!(!current_can_preempt(&rt, 0));
    current_disable_preempt(&mut rt, 0);
    current_enable_preempt(&mut rt, 0);
    assert!(!current_can_preempt(&rt, 0));
    current_enable_preempt(&mut rt, 0);
    assert_eq!(rt.tasks[main_slot].preempt_disable_count, initial);
    assert!(current_can_preempt(&rt, 0));
}

#[test]
fn two_tier_pickup_across_cpus() {
    // a task spawned into the global queue by one CPU is picked up by
    // another CPU whose local queue is empty
    let mut rt = init_main_processor(0, 2);
    init_secondary_processor(&mut rt, 1);
    assert_eq!(current_processor_id(&rt, 0), 0);
    assert_eq!(current_processor_id(&rt, 1), 1);

    let t = spawn_to_global(&mut rt, 0);
    let act = start_secondary_processor(&mut rt, 1, TaskContext::new());
    assert!(matches!(act, SwitchAction::Poll));
    assert_eq!(current_ptr(&rt, 1), t);
}

#[test]
fn idle_runs_when_everything_is_parked() {
    let (mut rt, _main) = boot_single_cpu();
    let q = rt.new_block_queue();
    let _ = block_current_async(&mut rt, 0, q);
    let idle = current_ptr(&rt, 0);
    assert!(rt.tasks[idle].is_idle);
    // waking the parked task puts it back and the next switch leaves idle
    assert_eq!(rt.wake_one_to_local(0, q), 1);
    let act = task_management::runtime::yield_current_to_local_async(&mut rt, 0);
    assert!(matches!(act, SwitchAction::Poll));
    assert!(!rt.tasks[current_ptr(&rt, 0)].is_idle);
}

#[test]
fn exit_is_never_observed_undone() {
    // once a task has exited, later scheduling never shows it in any
    // other state
    let (mut rt, main_slot) = boot_single_cpu();
    let a = spawn_to_local(&mut rt, 0);
    let _ = yield_current_to_local(&mut rt, 0, TaskContext::new());
    assert_eq!(current_ptr(&rt, 0), a);
    let _ = exit_current(&mut rt, 0, 7);
    assert!(matches!(rt.tasks[a].state, TaskState::Exited));
    for _ in 0..3 {
        let _ = yield_current_to_local(&mut rt, 0, TaskContext::new());
        assert!(matches!(rt.tasks[a].state, TaskState::Exited));
        assert_eq!(rt.tasks[a].exit_code, 7);
    }
    assert_eq!(current_ptr(&rt, 0), main_slot);
}

#[test]
fn task_ids_are_unique_and_monotonic() {
    let (mut rt, _main) = boot_single_cpu();
    let a = spawn_to_local(&mut rt, 0);
    let b = spawn_to_local_async(&mut rt, 0);
    let c = spawn_to_global(&mut rt, 0);
    let ids: Vec<u64> = rt.tasks.iter().map(|t| t.id.0).collect();
    for i in 0..ids.len() {
        assert_eq!(ids[i], i as u64 + 1);
        for j in 0..i {
            assert_ne!(ids[i], ids[j]);
        }
    }
    assert!(rt.tasks[a].id.0 < rt.tasks[b].id.0);
    assert!(rt.tasks[b].id.0 < rt.tasks[c].id.0);
}

#[test]
fn yield_with_empty_queues_collapses() {
    // when nothing else is runnable, a yield keeps the task on the CPU
    // and hands the very frame back
    let (mut rt, main_slot) = boot_single_cpu();
    let mut frame = TaskContext::new();
    frame.set_pc(0xabc0);
    let act = yield_current_to_local(&mut rt, 0, frame);
    assert_eq!(current_ptr(&rt, 0), main_slot);
    match act {
        SwitchAction::LoadContext(f) => assert_eq!(f, frame),
        SwitchAction::Poll => panic!("expected the frame back"),
    }
}

#[test]
fn current_id_follows_slot() {
    let (rt, main_slot) = boot_single_cpu();
    assert_eq!(current_id(&rt, 0), main_slot as u64 + 1);
}

#[test]
fn wakeup_before_park_is_tolerated() {
    // a wake that lands in the blocking window turns the task runnable
    // again: the following switch keeps it on the CPU instead of parking
    let (mut rt, main_slot) = boot_single_cpu();
    let q = rt.new_block_queue();
    task_management::runtime::block_current_begin(&mut rt, 0, q);
    assert!(matches!(rt.tasks[main_slot].state, TaskState::Blocking));
    assert!(rt.block_queues[q].waiters.contains(&main_slot));
    // the racing wake, arriving before the task has saved its context
    task_management::runtime::wakeup(&mut rt, 0, main_slot);
    assert!(matches!(rt.tasks[main_slot].state, TaskState::Runnable));
    assert!(!rt.block_queues[q].waiters.contains(&main_slot));
    // the interrupted block never parks: the task stays current
    let act = task_management::runtime::schedule_without_sp_change(&mut rt, 0);
    assert!(matches!(act, SwitchAction::Poll));
    assert_eq!(current_ptr(&rt, 0), main_slot);
}

#[test]
fn conditional_wake_picks_only_approved_waiters() {
    // three tasks park on one queue; a predicate matching one priority
    // wakes exactly the matching waiters and leaves the rest parked
    let (mut rt, _main) = boot_single_cpu();
    let q = rt.new_block_queue();
    let t1 = spawn_to_local_with_priority(&mut rt, 0, 1).unwrap();
    let t2 = spawn_to_local_with_priority(&mut rt, 0, 2).unwrap();
    let t3 = spawn_to_local_with_priority(&mut rt, 0, 1).unwrap();
    // park main at the lowest level so the three waiters park first
    task_management::runtime::change_current_priority(&mut rt, 0, 7).unwrap();
    let _ = yield_current_to_local(&mut rt, 0, TaskContext::new());
    for _ in 0..3 {
        let _ = block_current_async(&mut rt, 0, q);
    }
    assert!(matches!(rt.tasks[t1].state, TaskState::Blocked));

    let woken = rt.wake_all_with_cond_to_local(0, q, |t: &task_management::task::Task| {
        t.priority == 1
    });
    assert_eq!(woken, 2);
    assert!(matches!(rt.tasks[t1].state, TaskState::Runnable));
    assert!(matches!(rt.tasks[t3].state, TaskState::Runnable));
    assert!(matches!(rt.tasks[t2].state, TaskState::Blocked));

    assert_eq!(rt.wake_one_with_cond_to_local(0, q, |t: &task_management::task::Task| {
        t.priority == 5
    }), 0);
    assert_eq!(rt.wake_one_with_cond_to_local(0, q, |t: &task_management::task::Task| {
        t.priority == 2
    }), 1);
    assert!(matches!(rt.tasks[t2].state, TaskState::Runnable));
}

#[test]
fn preempt_hooks_are_noops_before_cpu_init() {
    // lock guards may fire on a CPU that has not initialised yet: the
    // counter hooks must do nothing rather than fail
    let mut rt = init_main_processor(0, 2);
    let before_len = rt.tasks.len();
    current_disable_preempt(&mut rt, 1);
    current_enable_preempt(&mut rt, 1);
    task_management::runtime::KernelGuardImpl::disable_preempt(&mut rt, 1);
    task_management::runtime::KernelGuardImpl::enable_preempt(&mut rt, 1);
    assert_eq!(rt.tasks.len(), before_len);
    for t in &rt.tasks {
        assert_eq!(t.preempt_disable_count, 0);
    }
    // on the initialised CPU the hooks count as usual
    current_disable_preempt(&mut rt, 0);
    let cur = current_ptr(&rt, 0);
    assert_eq!(rt.tasks[cur].preempt_disable_count, 1);
    current_enable_preempt(&mut rt, 0);
    assert_eq!(rt.tasks[cur].preempt_disable_count, 0);
}

#[test]
fn conditional_wake_keeps_survivors_in_order() {
    // four waiters park; a sweep wakes the middle two; the two left
    // behind keep their relative order
    let (mut rt, _main) = boot_single_cpu();
    let q = rt.new_block_queue();
    let t1 = spawn_to_local_with_priority(&mut rt, 0, 1).unwrap();
    let t2 = spawn_to_local_with_priority(&mut rt, 0, 2).unwrap();
    let t3 = spawn_to_local_with_priority(&mut rt, 0, 2).unwrap();
    let t4 = spawn_to_local_with_priority(&mut rt, 0, 3).unwrap();
    task_management::runtime::change_current_priority(&mut rt, 0, 7).unwrap();
    let _ = yield_current_to_local(&mut rt, 0, TaskContext::new());
    for _ in 0..4 {
        let _ = block_current_async(&mut rt, 0, q);
    }
    assert_eq!(rt.block_queues[q].waiters, vec![t1, t2, t3, t4]);

    let woken = rt.wake_all_with_cond_to_local(0, q, |t: &task_management::task::Task| {
        t.priority == 2
    });
    assert_eq!(woken, 2);
    assert_eq!(rt.block_queues[q].waiters, vec![t1, t4]);
    assert!(matches!(rt.tasks[t2].state, TaskState::Runnable));
    assert!(matches!(rt.tasks[t3].state, TaskState::Runnable));
    assert!(matches!(rt.tasks[t1].state, TaskState::Blocked));
    assert!(matches!(rt.tasks[t4].state, TaskState::Blocked));
}
