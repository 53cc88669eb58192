//! Behaviour of the four scheduling policies, each exercised standalone.

use task_management::sched_cfs::CfsScheduler;
use task_management::sched_fifo::FifoScheduler;
use task_management::sched_prio::{Scheduler, PRIO_LEVEL_NUM};
use task_management::sched_rr::{RrScheduler, MAX_TIME_SLICE};

#[test]
fn fifo_serves_in_arrival_order() {
    let mut s = FifoScheduler::new();
    assert_eq!(s.highest_priority(), 1);
    s.add_task(10);
    s.add_task(11);
    s.add_task(12);
    assert_eq!(s.highest_priority(), 0);
    assert_eq!(s.pick_next_task(), Some(10));
    assert_eq!(s.pick_next_task(), Some(11));
    assert_eq!(s.pick_next_task(), Some(12));
    assert_eq!(s.pick_next_task(), None);
    assert!(!s.task_tick());
    assert!(!s.set_priority(10, 3));
}

#[test]
fn round_robin_slice_expires_on_schedule() {
    let mut s = RrScheduler::new();
    s.add_task(1);
    s.add_task(2);
    assert_eq!(s.pick_next_task(), Some(1));
    // the slice lasts MAX_TIME_SLICE ticks: the reschedule request comes
    // exactly on the last one
    for _ in 0..MAX_TIME_SLICE - 1 {
        assert!(!s.task_tick());
    }
    assert!(s.task_tick());
    assert_eq!(s.pick_next_task(), Some(2));
    assert!(!s.set_priority(1, 0));
}

#[test]
fn static_priority_picks_best_level_first() {
    let mut s = Scheduler::new();
    assert_eq!(s.highest_priority(), PRIO_LEVEL_NUM);
    s.add_task(30, 7);
    s.add_task(31, 3);
    s.add_task(32, 0);
    s.add_task(33, 3);
    assert_eq!(s.highest_priority(), 0);
    assert_eq!(s.pick_next_task(), Some(32));
    assert_eq!(s.highest_priority(), 3);
    assert_eq!(s.pick_next_task(), Some(31));
    assert_eq!(s.pick_next_task(), Some(33));
    assert_eq!(s.highest_priority(), 7);
    assert_eq!(s.pick_next_task(), Some(30));
    assert_eq!(s.pick_next_task(), None);
}

#[test]
fn cfs_picks_least_virtual_runtime() {
    let mut s = CfsScheduler::new();
    assert!(s.pick_next_task().is_none());
    s.add_task(1, 50);
    s.add_task(2, 10);
    s.add_task(3, 30);
    assert_eq!(s.min_vruntime(), Some(10));
    let t = s.pick_next_task().unwrap();
    assert_eq!(t.slot, 2);
    assert_eq!(t.vruntime, 10);
    let t = s.pick_next_task().unwrap();
    assert_eq!(t.slot, 3);
    let t = s.pick_next_task().unwrap();
    assert_eq!(t.slot, 1);
}

#[test]
fn cfs_tick_requests_reschedule_when_overtaken() {
    let mut s = CfsScheduler::new();
    s.add_task(7, 5);
    let mut current = s.pick_next_task().unwrap();
    s.add_task(8, 6);
    // current at 5 ticks to 6: not beyond the waiter at 6 yet
    assert!(!s.task_tick(&mut current));
    assert_eq!(current.vruntime, 6);
    // one more tick and the waiter has run less
    assert!(s.task_tick(&mut current));
    assert_eq!(current.vruntime, 7);
    assert!(s.set_priority(7, -20));
    assert!(s.set_priority(7, 19));
    assert!(!s.set_priority(7, 20));
    assert!(!s.set_priority(7, -21));
}

#[test]
fn cfs_ties_go_to_the_earlier_entry() {
    let mut s = CfsScheduler::new();
    s.add_task(1, 4);
    s.add_task(2, 4);
    let t = s.pick_next_task().unwrap();
    assert_eq!(t.slot, 1);
}
