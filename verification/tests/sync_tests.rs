//! Scenario tests for the sync primitives: mutual exclusion, FIFO wakeup,
//! resource accounting and deadlock detection.

use kernel_core::process::{Image, ProcessControlBlock};
use kernel_core::task::TaskStatus;
use kernel_core::{BLOCKED, DEADLOCK_ERR, RES_LIMIT};

fn image() -> Image {
    Image { token: 7, entry_point: 0x1000, ustack_base: 0x8000 }
}

/// A process with `n` tasks; task 0 is running, the rest are ready.
fn proc_with_tasks(n: usize) -> ProcessControlBlock {
    let mut p = ProcessControlBlock::new(1, image(), 0);
    for _ in 1..n {
        p.inner.create_task(0);
    }
    p.inner.set_task_running(0);
    p
}

fn holds_mutex(p: &ProcessControlBlock, tid: usize, id: usize) -> bool {
    p.inner.get_task(tid).allocated[id] >= 1
}

#[test]
fn mutex_lock_free_acquires() {
    let mut p = proc_with_tasks(1);
    let id = p.inner.mutex_create(true);
    assert_eq!(id, 0);
    assert_eq!(p.inner.available[0], 1);
    let r = p.inner.mutex_lock(0, 0);
    assert_eq!(r, 0);
    assert!(holds_mutex(&p, 0, 0));
    assert_eq!(p.inner.available[0], 0);
}

#[test]
fn mutex_handoff_scenario() {
    // Task A acquires M; B attempts and blocks; A unlocks; B is woken and
    // holds M while A does not.
    let mut p = proc_with_tasks(2);
    let id = p.inner.mutex_create(true) as usize;
    let r = p.inner.mutex_lock(0, id);
    assert_eq!(r, 0);
    // A yields, B runs and tries to lock.
    p.inner.set_task_ready(0);
    p.inner.set_task_running(1);
    let r = p.inner.mutex_lock(1, id);
    assert_eq!(r, BLOCKED);
    assert_eq!(p.inner.get_task(1).task_status, TaskStatus::Blocked);
    // Mutual exclusion while both want it: only A holds.
    assert!(holds_mutex(&p, 0, id));
    assert!(!holds_mutex(&p, 1, id));
    // B leaves the processor; A runs again and unlocks.
    p.inner.set_task_running(0);
    let woken = p.inner.mutex_unlock(0, id);
    assert_eq!(woken, Some(1));
    assert_eq!(p.inner.get_task(1).task_status, TaskStatus::Ready);
    assert!(holds_mutex(&p, 1, id));
    assert!(!holds_mutex(&p, 0, id));
}

#[test]
fn mutex_fifo_wakeup_order() {
    // Among tasks blocked on the same mutex, the one blocked longest is
    // woken first.
    let mut p = proc_with_tasks(3);
    let id = p.inner.mutex_create(true) as usize;
    assert_eq!(p.inner.mutex_lock(0, id), 0);
    p.inner.set_task_ready(0);
    p.inner.set_task_running(1);
    assert_eq!(p.inner.mutex_lock(1, id), BLOCKED);
    p.inner.set_task_running(2);
    assert_eq!(p.inner.mutex_lock(2, id), BLOCKED);
    p.inner.set_task_running(0);
    assert_eq!(p.inner.mutex_unlock(0, id), Some(1));
    // Task 1 now holds; it releases and task 2 follows.
    p.inner.set_task_ready(0);
    p.inner.set_task_running(1);
    assert_eq!(p.inner.mutex_unlock(1, id), Some(2));
    assert!(holds_mutex(&p, 2, id));
}

#[test]
fn mutex_accounting_invariant() {
    // available[m] plus the units held across tasks equals the capacity 1 at
    // every step of a lock/unlock exchange.
    let mut p = proc_with_tasks(2);
    let id = p.inner.mutex_create(true) as usize;
    let total = |p: &ProcessControlBlock| {
        p.inner.available[id]
            + p.inner.get_task(0).allocated[id]
            + p.inner.get_task(1).allocated[id]
    };
    assert_eq!(total(&p), 1);
    assert_eq!(p.inner.mutex_lock(0, id), 0);
    assert_eq!(total(&p), 1);
    p.inner.set_task_ready(0);
    p.inner.set_task_running(1);
    assert_eq!(p.inner.mutex_lock(1, id), BLOCKED);
    assert_eq!(total(&p), 1);
    p.inner.set_task_running(0);
    p.inner.mutex_unlock(0, id);
    assert_eq!(total(&p), 1);
}

#[test]
fn spin_mutex_yields_and_retries() {
    let mut p = proc_with_tasks(2);
    let id = p.inner.mutex_create(false) as usize;
    assert_eq!(p.inner.mutex_lock(0, id), 0);
    // Contention: the busy-wait variant reports a retry, keeps no queue and
    // no accounting.
    p.inner.set_task_ready(0);
    p.inner.set_task_running(1);
    assert_eq!(p.inner.mutex_lock(1, id), BLOCKED);
    assert_eq!(p.inner.get_task(1).task_status, TaskStatus::Running);
    assert_eq!(p.inner.get_task(1).allocated[id], 0);
    // Holder releases; the retry succeeds.
    p.inner.mutex_unlock(1, id);
    assert_eq!(p.inner.mutex_lock(1, id), 0);
}

#[test]
fn semaphore_three_downs_two_ups() {
    // count=1; A, B, C call down in order: A succeeds, B and C block in
    // order; two ups wake B then C in that order.
    let mut p = proc_with_tasks(3);
    let id = p.inner.semaphore_create(1) as usize;
    assert_eq!(p.inner.semaphore_down(0, id), 0);
    p.inner.set_task_ready(0);
    p.inner.set_task_running(1);
    assert_eq!(p.inner.semaphore_down(1, id), BLOCKED);
    p.inner.set_task_running(2);
    assert_eq!(p.inner.semaphore_down(2, id), BLOCKED);
    assert_eq!(p.inner.get_task(1).task_status, TaskStatus::Blocked);
    assert_eq!(p.inner.get_task(2).task_status, TaskStatus::Blocked);
    // A releases: B is woken first (FIFO), then B releases and C follows.
    p.inner.set_task_running(0);
    assert_eq!(p.inner.semaphore_up(0, id), Some(1));
    assert_eq!(p.inner.get_task(1).task_status, TaskStatus::Ready);
    assert_eq!(p.inner.get_task(2).task_status, TaskStatus::Blocked);
    p.inner.set_task_ready(0);
    p.inner.set_task_running(1);
    assert_eq!(p.inner.semaphore_up(1, id), Some(2));
    assert_eq!(p.inner.get_task(2).task_status, TaskStatus::Ready);
    assert_eq!(p.inner.get_task(2).allocated_sem[id], 1);
}

#[test]
fn semaphore_accounting_invariant() {
    let mut p = proc_with_tasks(2);
    let id = p.inner.semaphore_create(3) as usize;
    let total = |p: &ProcessControlBlock| {
        p.inner.available_sem[id]
            + p.inner.get_task(0).allocated_sem[id]
            + p.inner.get_task(1).allocated_sem[id]
    };
    assert_eq!(total(&p), 3);
    assert_eq!(p.inner.semaphore_down(0, id), 0);
    assert_eq!(total(&p), 3);
    p.inner.set_task_ready(0);
    p.inner.set_task_running(1);
    assert_eq!(p.inner.semaphore_down(1, id), 0);
    assert_eq!(total(&p), 3);
    assert_eq!(p.inner.semaphore_up(1, id), None);
    assert_eq!(total(&p), 3);
}

#[test]
fn deadlock_detected_on_circular_wait() {
    // Two tasks each hold one of two mutexes and request the other: with
    // detection on, the second request is refused with the deadlock status.
    let mut p = proc_with_tasks(2);
    p.inner.set_deadlock_flag(true);
    let m0 = p.inner.mutex_create(true) as usize;
    let m1 = p.inner.mutex_create(true) as usize;
    assert_eq!(p.inner.mutex_lock(0, m0), 0);
    p.inner.set_task_ready(0);
    p.inner.set_task_running(1);
    assert_eq!(p.inner.mutex_lock(1, m1), 0);
    // No cycle yet: task 1 waiting for m0 can be satisfied once task 0
    // finishes, so the detector lets it block.
    assert_eq!(p.inner.mutex_lock(1, m0), BLOCKED);
    // Now task 0 requesting m1 closes the cycle: refused, not blocked.
    p.inner.set_task_running(0);
    assert_eq!(p.inner.mutex_lock(0, m1), DEADLOCK_ERR);
    assert_eq!(p.inner.get_task(0).task_status, TaskStatus::Running);
}

#[test]
fn deadlock_detection_disabled_blocks_instead() {
    // The same circular wait with detection off blocks rather than erroring.
    let mut p = proc_with_tasks(2);
    let m0 = p.inner.mutex_create(true) as usize;
    let m1 = p.inner.mutex_create(true) as usize;
    assert_eq!(p.inner.mutex_lock(0, m0), 0);
    p.inner.set_task_ready(0);
    p.inner.set_task_running(1);
    assert_eq!(p.inner.mutex_lock(1, m1), 0);
    assert_eq!(p.inner.mutex_lock(1, m0), BLOCKED);
    p.inner.set_task_running(0);
    assert_eq!(p.inner.mutex_lock(0, m1), BLOCKED);
    // Both sit blocked forever: nothing errored, nothing is runnable.
    assert_eq!(p.inner.get_task(0).task_status, TaskStatus::Blocked);
    assert_eq!(p.inner.get_task(1).task_status, TaskStatus::Blocked);
}

#[test]
fn deadlock_check_sem_on_circular_wait() {
    // The semaphore instance of the detector refuses a circular wait too.
    let mut p = proc_with_tasks(2);
    p.inner.set_deadlock_flag(true);
    let s0 = p.inner.semaphore_create(1) as usize;
    let s1 = p.inner.semaphore_create(1) as usize;
    assert_eq!(p.inner.semaphore_down(0, s0), 0);
    p.inner.set_task_ready(0);
    p.inner.set_task_running(1);
    assert_eq!(p.inner.semaphore_down(1, s1), 0);
    assert_eq!(p.inner.semaphore_down(1, s0), BLOCKED);
    p.inner.set_task_running(0);
    let r = p.inner.semaphore_down(0, s1);
    assert_eq!(r, DEADLOCK_ERR);
    // The refused request stays recorded, as does the decremented counter.
    assert_eq!(p.inner.get_task(0).needed_sem[s1], 1);
}

#[test]
fn check_deadlock_true_when_disabled() {
    let p = proc_with_tasks(1);
    assert!(p.inner.check_deadlock());
    assert!(p.inner.check_deadlock_sem());
}

#[test]
fn mutex_create_reuses_low_slots_and_exhausts() {
    let mut p = proc_with_tasks(1);
    for expect in 0..RES_LIMIT {
        let id = p.inner.mutex_create(true);
        assert_eq!(id, expect as isize);
    }
    assert_eq!(p.inner.mutex_create(true), -1);
}

#[test]
fn semaphore_zero_capacity_blocks_first_down() {
    let mut p = proc_with_tasks(2);
    let id = p.inner.semaphore_create(0) as usize;
    assert_eq!(p.inner.available_sem[id], 0);
    assert_eq!(p.inner.semaphore_down(0, id), BLOCKED);
    // An up from a later holder is the only wake-up path; here nobody holds,
    // so the task stays blocked.
    assert_eq!(p.inner.get_task(0).task_status, TaskStatus::Blocked);
}
