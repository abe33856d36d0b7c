//! Counting semaphore with a FIFO wait queue.

use vstd::prelude::*;
use std::collections::VecDeque;
use crate::{BLOCKED, DEADLOCK_ERR, RES_LIMIT};
use crate::accounting::{lemma_sum_le, lemma_sum_update, slot_allocated, slot_needed, sum_allocated};
use crate::deadlock::{can_complete, lemma_can_complete_agree, snapshots_agree};
use crate::process::{lemma_base_wf_task_update, lemma_slots_preserved_task_update, queue_wf, ProcessControlBlockInner};
use crate::task::{BlockedOn, TaskStatus};

verus! {

/// Counting semaphore.
pub struct Semaphore {
    /// Counter, wait queue and capacity.
    pub inner: SemaphoreInner,
}

/// State of a semaphore.
pub struct SemaphoreInner {
    /// Signed counter: when negative, its magnitude counts outstanding
    /// requests beyond the capacity.
    pub count: isize,
    /// Thread ids blocked on this semaphore, in blocking order.
    pub wait_queue: VecDeque<usize>,
    /// Capacity the semaphore was created with.
    pub cap: Ghost<nat>,
}

impl Semaphore {
    /// Creates a semaphore holding `res_count` units.
    pub fn new(res_count: usize) -> (s: Semaphore)
        requires
            res_count <= isize::MAX,
        ensures
            s.inner.count == res_count,
            s.inner.wait_queue@.len() == 0,
            s.inner.cap@ == res_count,
    {
        Semaphore {
            inner: SemaphoreInner {
                count: res_count as isize,
                wait_queue: VecDeque::new(),
                cap: Ghost(res_count as nat),
            },
        }
    }

    /// One `down` step by the running task `tid`, on this semaphore taken
    /// out of slot `sem_id` of `proc`'s table. Returns 0 when a unit was
    /// granted at once; `BLOCKED` when the caller was parked on the wait
    /// queue; `DEADLOCK_ERR` when detection is on and parking could never be
    /// woken — the counter and the task's request stay recorded in that
    /// case.
    pub fn down(&mut self, proc: &mut ProcessControlBlockInner, tid: usize, sem_id: usize) -> (r: isize)
        requires
            old(proc).base_wf(),
            old(proc).detect_pre(true),
            old(proc).live(tid as int),
            old(proc).task_of(tid as int).task_status is Running,
            sem_id < RES_LIMIT,
            old(proc).sem_inv(*old(self), sem_id as int),
            old(proc).task_of(tid as int).needed_sem@[sem_id as int] < usize::MAX,
            old(self).inner.count > isize::MIN,
        ensures
            final(proc).base_wf(),
            final(proc).tasks@.len() == old(proc).tasks@.len(),
            forall|j: int| 0 <= j < old(proc).tasks@.len() && j != tid
                ==> final(proc).tasks@[j] == old(proc).tasks@[j],
            final(proc).live(tid as int),
            final(proc).available@ == old(proc).available@,
            final(proc).mutex_list@ == old(proc).mutex_list@,
            final(proc).semaphore_list@ == old(proc).semaphore_list@,
            final(proc).condvar_list@ == old(proc).condvar_list@,
            final(proc).fd_table == old(proc).fd_table,
            final(proc).children == old(proc).children,
            final(proc).parent == old(proc).parent,
            final(proc).memory_set == old(proc).memory_set,
            final(proc).exit_code == old(proc).exit_code,
            final(proc).is_zombie == old(proc).is_zombie,
            final(proc).signals == old(proc).signals,
            final(proc).deadlock_flag == old(proc).deadlock_flag,
            final(proc).task_res_allocator == old(proc).task_res_allocator,
            ({
                let t0 = old(proc).task_of(tid as int);
                let t1 = final(proc).task_of(tid as int);
                &&& t1.sem_id == sem_id
                &&& t1.mutex_id == t0.mutex_id
                &&& t1.exit_code == t0.exit_code
                &&& t1.start_time == t0.start_time
                &&& t1.run_time == t0.run_time
                &&& t1.allocated == t0.allocated
                &&& t1.needed == t0.needed
                &&& t1.wf()
            }),
            final(self).inner.count == old(self).inner.count - 1,
            final(self).inner.cap == old(self).inner.cap,
            r == 0 || r == BLOCKED || r == DEADLOCK_ERR,
            (r == 0 <==> old(self).inner.count >= 1),
            (r == 0 ==> {
                let t0 = old(proc).task_of(tid as int);
                let t1 = final(proc).task_of(tid as int);
                &&& t1.allocated_sem@ == t0.allocated_sem@.update(
                    sem_id as int, (t0.allocated_sem@[sem_id as int] + 1) as usize)
                &&& t1.needed_sem@ == t0.needed_sem@
                &&& t1.task_status == t0.task_status
                &&& t1.blocked_on == t0.blocked_on
                &&& final(proc).available_sem@ == old(proc).available_sem@.update(
                    sem_id as int, (old(proc).available_sem@[sem_id as int] - 1) as usize)
                &&& final(self).inner.wait_queue@ == old(self).inner.wait_queue@
            }),
            (old(self).inner.count < 1 ==> {
                let t0 = old(proc).task_of(tid as int);
                let t1 = final(proc).task_of(tid as int);
                &&& t1.needed_sem@ == t0.needed_sem@.update(
                    sem_id as int, (t0.needed_sem@[sem_id as int] + 1) as usize)
                &&& t1.allocated_sem@ == t0.allocated_sem@
                &&& final(proc).available_sem@ == old(proc).available_sem@
                &&& (r == DEADLOCK_ERR <==> (old(proc).deadlock_flag
                    && !can_complete(final(proc).tasks@, old(proc).available_sem@, true)))
                &&& (r == DEADLOCK_ERR ==> t1.task_status is Running
                    && t1.blocked_on@ is Nothing
                    && final(self).inner.wait_queue@ == old(self).inner.wait_queue@)
                &&& (r == BLOCKED ==> t1.task_status is Blocked
                    && t1.blocked_on@ == BlockedOn::OnSem(sem_id)
                    && final(self).inner.wait_queue@ == old(self).inner.wait_queue@.push(tid))
            }),
            final(proc).sem_inv(*final(self), sem_id as int),
            (old(proc).sem_accounting_exact(*old(self), sem_id as int)
                ==> final(proc).sem_accounting_exact(*final(self), sem_id as int)),
            forall|s2: int| 0 <= s2 < RES_LIMIT && s2 != sem_id && old(proc).sem_slot_ok(s2)
                ==> final(proc).sem_slot_ok(s2),
            forall|m: int| 0 <= m < RES_LIMIT && old(proc).mutex_slot_ok(m)
                ==> final(proc).mutex_slot_ok(m),
            forall|c: int| 0 <= c < RES_LIMIT && old(proc).cond_slot_ok(c)
                ==> final(proc).cond_slot_ok(c),
    {
        let ghost q0 = self.inner.wait_queue@;
        proof {
            assert forall|k: int| 0 <= k < q0.len() implies q0[k] != tid by {
                assert(old(proc).tasks@[q0[k] as int]->0.task_status is Blocked);
            }
        }
        self.inner.count = self.inner.count - 1;
        let mut t = proc.tasks[tid].take().unwrap();
        t.sem_id = sem_id;
        if self.inner.count < 0 {
            t.needed_sem[sem_id] = t.needed_sem[sem_id] + 1;
            proc.tasks[tid] = Some(t);
            proof {
                lemma_slots_preserved_task_update(
                    *old(proc), *proc, tid as int, -1, sem_id as int);
                lemma_sum_update(
                    old(proc).tasks@, tid as int, proc.tasks@[tid as int], sem_id as int, true);
                assert(proc.task_of(tid as int).wf());
                assert forall|i: int| #[trigger] proc.live(i) implies proc.task_of(i).wf() by {
                    if i != tid {
                        assert(old(proc).live(i));
                        assert(proc.tasks@[i] == old(proc).tasks@[i]);
                    }
                }
                assert forall|r: int| 0 <= r < RES_LIMIT
                    implies proc.available_sem@[r] + sum_allocated(proc.tasks@, r, true)
                        <= usize::MAX by {
                    if r == sem_id as int {
                        assert(proc.tasks@ =~= old(proc).tasks@.update(
                            tid as int, proc.tasks@[tid as int]));
                        lemma_sum_update(
                            old(proc).tasks@, tid as int, proc.tasks@[tid as int], r, true);
                        assert(slot_allocated(proc.tasks@[tid as int], r, true)
                            == slot_allocated(old(proc).tasks@[tid as int], r, true));
                        assert(sum_allocated(proc.tasks@, r, true)
                            == sum_allocated(old(proc).tasks@, r, true));
                    } else {
                        assert(sum_allocated(proc.tasks@, r, true)
                            == sum_allocated(old(proc).tasks@, r, true));
                    }
                    assert(old(proc).avail_of(true)[r]
                        + sum_allocated(old(proc).tasks@, r, true) <= usize::MAX);
                    assert(proc.available_sem@[r] == old(proc).available_sem@[r]);
                }
                lemma_base_wf_task_update(*old(proc), *proc, tid as int);
                assert(proc.detect_pre(true));
            }
            let safe = proc.check_deadlock_sem();
            if !safe {
                proof {
                    lemma_slots_preserved_task_update(
                        *old(proc), *proc, tid as int, -1, sem_id as int);
                    assert(proc.tasks@ =~= old(proc).tasks@.update(
                        tid as int, proc.tasks@[tid as int]));
                    lemma_sum_update(
                        old(proc).tasks@, tid as int, proc.tasks@[tid as int], sem_id as int, true);
                    assert(sum_allocated(proc.tasks@, sem_id as int, true)
                        == sum_allocated(old(proc).tasks@, sem_id as int, true));
                    assert(queue_wf(
                        proc.tasks@,
                        self.inner.wait_queue@,
                        BlockedOn::OnSem(sem_id),
                        sem_id as int,
                        true,
                    )) by {
                        assert forall|k: int| 0 <= k < q0.len()
                            implies proc.tasks@[q0[k] as int] == old(proc).tasks@[q0[k] as int] by {
                            assert(q0[k] != tid);
                        }
                    }
                    assert(proc.sem_inv(*self, sem_id as int));
                }
                DEADLOCK_ERR
            } else {
                self.inner.wait_queue.push_back(tid);
                let ghost mid = *proc;
                let mut t = proc.tasks[tid].take().unwrap();
                t.task_status = TaskStatus::Blocked;
                t.blocked_on = Ghost(BlockedOn::OnSem(sem_id));
                proc.tasks[tid] = Some(t);
                proof {
                    lemma_slots_preserved_task_update(
                        *old(proc), *proc, tid as int, -1, sem_id as int);
                    assert(proc.tasks@ =~= old(proc).tasks@.update(
                        tid as int, proc.tasks@[tid as int]));
                    lemma_sum_update(
                        old(proc).tasks@, tid as int, proc.tasks@[tid as int], sem_id as int, true);
                    assert(slot_allocated(proc.tasks@[tid as int], sem_id as int, true)
                        == slot_allocated(old(proc).tasks@[tid as int], sem_id as int, true));
                    assert(sum_allocated(proc.tasks@, sem_id as int, true)
                        == sum_allocated(old(proc).tasks@, sem_id as int, true));
                    assert(snapshots_agree(mid.tasks@, proc.tasks@, true)) by {
                        assert(mid.tasks@ =~= proc.tasks@.update(tid as int, mid.tasks@[tid as int]));
                    }
                    lemma_can_complete_agree(mid.tasks@, proc.tasks@, old(proc).available_sem@, true);
                    assert(queue_wf(
                        proc.tasks@,
                        self.inner.wait_queue@,
                        BlockedOn::OnSem(sem_id),
                        sem_id as int,
                        true,
                    )) by {
                        assert forall|k: int| 0 <= k < q0.len()
                            implies proc.tasks@[q0[k] as int] == old(proc).tasks@[q0[k] as int] by {
                            assert(q0[k] != tid);
                        }
                        assert(self.inner.wait_queue@[q0.len() as int] == tid);
                    }
                    assert(proc.task_of(tid as int).wf());
                    lemma_base_wf_task_update(*old(proc), *proc, tid as int);
                    assert(proc.sem_inv(*self, sem_id as int));
                }
                BLOCKED
            }
        } else {
            proof {
                lemma_sum_le(old(proc).tasks@, tid as int, sem_id as int, true);
            }
            t.allocated_sem[sem_id] = t.allocated_sem[sem_id] + 1;
            proc.tasks[tid] = Some(t);
            proof {
                assert(old(proc).available_sem@[sem_id as int] >= 1);
            }
            proc.available_sem[sem_id] = proc.available_sem[sem_id] - 1;
            proof {
                lemma_slots_preserved_task_update(
                    *old(proc), *proc, tid as int, -1, sem_id as int);
                assert(proc.tasks@ =~= old(proc).tasks@.update(
                    tid as int, proc.tasks@[tid as int]));
                lemma_sum_update(
                    old(proc).tasks@, tid as int, proc.tasks@[tid as int], sem_id as int, true);
                assert(slot_allocated(proc.tasks@[tid as int], sem_id as int, true)
                    == slot_allocated(old(proc).tasks@[tid as int], sem_id as int, true) + 1);
                assert(sum_allocated(proc.tasks@, sem_id as int, true)
                    == sum_allocated(old(proc).tasks@, sem_id as int, true) + 1);
                assert(queue_wf(
                    proc.tasks@,
                    self.inner.wait_queue@,
                    BlockedOn::OnSem(sem_id),
                    sem_id as int,
                    true,
                )) by {
                    assert forall|k: int| 0 <= k < q0.len()
                        implies proc.tasks@[q0[k] as int] == old(proc).tasks@[q0[k] as int] by {
                        assert(q0[k] != tid);
                    }
                }
                assert(proc.task_of(tid as int).wf());
                lemma_base_wf_task_update(*old(proc), *proc, tid as int);
                assert(proc.sem_inv(*self, sem_id as int));
            }
            0
        }
    }

    /// One `up` step by the running task `tid`, on this semaphore taken out
    /// of slot `sem_id`. Returns the FIFO-first waiter when one is woken:
    /// the unit moves straight from the releaser to the longest-blocked
    /// waiter; otherwise the unit returns to the free pool — unless the
    /// counter is still short from an earlier predicted-deadlock `down`
    /// with nobody waiting, in which case the unit is absorbed.
    pub fn up(&mut self, proc: &mut ProcessControlBlockInner, tid: usize, sem_id: usize) -> (woken: Option<usize>)
        requires
            old(proc).base_wf(),
            old(proc).live(tid as int),
            old(proc).task_of(tid as int).task_status is Running,
            sem_id < RES_LIMIT,
            old(proc).sem_inv(*old(self), sem_id as int),
            old(proc).task_of(tid as int).allocated_sem@[sem_id as int] >= 1,
        ensures
            final(proc).base_wf(),
            final(proc).tasks@.len() == old(proc).tasks@.len(),
            forall|j: int| 0 <= j < old(proc).tasks@.len() && j != tid
                && (woken is Some ==> j != woken->0)
                ==> final(proc).tasks@[j] == old(proc).tasks@[j],
            final(proc).live(tid as int),
            final(proc).available@ == old(proc).available@,
            final(proc).mutex_list@ == old(proc).mutex_list@,
            final(proc).semaphore_list@ == old(proc).semaphore_list@,
            final(proc).condvar_list@ == old(proc).condvar_list@,
            final(proc).fd_table == old(proc).fd_table,
            final(proc).children == old(proc).children,
            final(proc).parent == old(proc).parent,
            final(proc).memory_set == old(proc).memory_set,
            final(proc).exit_code == old(proc).exit_code,
            final(proc).is_zombie == old(proc).is_zombie,
            final(proc).signals == old(proc).signals,
            final(proc).deadlock_flag == old(proc).deadlock_flag,
            final(proc).task_res_allocator == old(proc).task_res_allocator,
            ({
                let t0 = old(proc).task_of(tid as int);
                let t1 = final(proc).task_of(tid as int);
                &&& t1.sem_id == sem_id
                &&& t1.mutex_id == t0.mutex_id
                &&& t1.task_status == t0.task_status
                &&& t1.blocked_on == t0.blocked_on
                &&& t1.exit_code == t0.exit_code
                &&& t1.start_time == t0.start_time
                &&& t1.run_time == t0.run_time
                &&& t1.allocated == t0.allocated
                &&& t1.needed == t0.needed
                &&& t1.needed_sem@ == t0.needed_sem@
                &&& t1.allocated_sem@ == t0.allocated_sem@.update(
                    sem_id as int, (t0.allocated_sem@[sem_id as int] - 1) as usize)
                &&& t1.wf()
            }),
            final(self).inner.count == old(self).inner.count + 1,
            final(self).inner.cap == old(self).inner.cap,
            (woken is Some <==> (old(self).inner.count + 1 <= 0
                && old(self).inner.wait_queue@.len() > 0)),
            (woken is Some ==> {
                let w = woken->0 as int;
                let w0 = old(proc).task_of(w);
                let w1 = final(proc).task_of(w);
                &&& woken->0 == old(self).inner.wait_queue@[0]
                &&& final(self).inner.wait_queue@
                    == old(self).inner.wait_queue@.subrange(
                        1, old(self).inner.wait_queue@.len() as int)
                &&& w != tid
                &&& final(proc).live(w)
                &&& w1.task_status is Ready
                &&& w1.blocked_on@ is Nothing
                &&& w1.needed_sem@ == w0.needed_sem@.update(
                    sem_id as int, (w0.needed_sem@[sem_id as int] - 1) as usize)
                &&& w1.allocated_sem@ == w0.allocated_sem@.update(
                    sem_id as int, (w0.allocated_sem@[sem_id as int] + 1) as usize)
                &&& w1.allocated == w0.allocated
                &&& w1.needed == w0.needed
                &&& w1.mutex_id == w0.mutex_id
                &&& w1.sem_id == w0.sem_id
                &&& w1.exit_code == w0.exit_code
                &&& w1.start_time == w0.start_time
                &&& w1.run_time == w0.run_time
                &&& final(proc).available_sem@ == old(proc).available_sem@
            }),
            ((woken is None && old(self).inner.count + 1 <= 0) ==> {
                &&& final(proc).available_sem@ == old(proc).available_sem@
                &&& final(self).inner.wait_queue@ == old(self).inner.wait_queue@
            }),
            (old(self).inner.count + 1 > 0 ==> {
                &&& woken is None
                &&& final(proc).available_sem@ == old(proc).available_sem@.update(
                    sem_id as int, (old(proc).available_sem@[sem_id as int] + 1) as usize)
                &&& final(self).inner.wait_queue@ == old(self).inner.wait_queue@
            }),
            final(proc).sem_inv(*final(self), sem_id as int),
            ((old(proc).sem_accounting_exact(*old(self), sem_id as int)
                && (old(self).inner.count + 1 <= 0
                    ==> old(self).inner.wait_queue@.len() > 0))
                ==> final(proc).sem_accounting_exact(*final(self), sem_id as int)),
            forall|s2: int| 0 <= s2 < RES_LIMIT && s2 != sem_id && old(proc).sem_slot_ok(s2)
                ==> final(proc).sem_slot_ok(s2),
            forall|m: int| 0 <= m < RES_LIMIT && old(proc).mutex_slot_ok(m)
                ==> final(proc).mutex_slot_ok(m),
            forall|c: int| 0 <= c < RES_LIMIT && old(proc).cond_slot_ok(c)
                ==> final(proc).cond_slot_ok(c),
    {
        let ghost q0 = self.inner.wait_queue@;
        proof {
            assert forall|k: int| 0 <= k < q0.len() implies q0[k] != tid by {
                assert(old(proc).tasks@[q0[k] as int]->0.task_status is Blocked);
            }
            lemma_sum_le(old(proc).tasks@, tid as int, sem_id as int, true);
        }
        self.inner.count = self.inner.count + 1;
        let mut t = proc.tasks[tid].take().unwrap();
        t.sem_id = sem_id;
        t.allocated_sem[sem_id] = t.allocated_sem[sem_id] - 1;
        proc.tasks[tid] = Some(t);
        let ghost mid = *proc;
        proof {
            lemma_slots_preserved_task_update(*old(proc), mid, tid as int, -1, sem_id as int);
            assert(mid.tasks@ =~= old(proc).tasks@.update(tid as int, mid.tasks@[tid as int]));
            lemma_sum_update(
                old(proc).tasks@, tid as int, mid.tasks@[tid as int], sem_id as int, true);
            assert(sum_allocated(mid.tasks@, sem_id as int, true) + 1
                == sum_allocated(old(proc).tasks@, sem_id as int, true));
            assert(mid.task_of(tid as int).wf());
            lemma_base_wf_task_update(*old(proc), mid, tid as int);
        }
        if self.inner.count <= 0 {
            let popped = self.inner.wait_queue.pop_front();
            match popped {
                Some(w) => {
                    proof {
                        assert(w == q0[0]);
                        assert(old(proc).live(q0[0] as int));
                        assert(w != tid);
                        assert(mid.tasks@[w as int] == old(proc).tasks@[w as int]);
                        assert(mid.live(w as int));
                        assert(mid.task_of(w as int).wf());
                        assert(slot_needed(old(proc).tasks@[q0[0] as int], sem_id as int, true) >= 1);
                        assert(mid.task_of(w as int).needed_sem@[sem_id as int] >= 1);
                        lemma_sum_le(mid.tasks@, w as int, sem_id as int, true);
                    }
                    let mut wt = proc.tasks[w].take().unwrap();
                    wt.needed_sem[sem_id] = wt.needed_sem[sem_id] - 1;
                    wt.allocated_sem[sem_id] = wt.allocated_sem[sem_id] + 1;
                    wt.task_status = TaskStatus::Ready;
                    wt.blocked_on = Ghost(BlockedOn::Nothing);
                    proc.tasks[w] = Some(wt);
                    proof {
                        lemma_slots_preserved_task_update(mid, *proc, w as int, -1, sem_id as int);
                        assert(proc.tasks@ =~= mid.tasks@.update(w as int, proc.tasks@[w as int]));
                        lemma_sum_update(
                            mid.tasks@, w as int, proc.tasks@[w as int], sem_id as int, true);
                        assert(sum_allocated(proc.tasks@, sem_id as int, true)
                            == sum_allocated(mid.tasks@, sem_id as int, true) + 1);
                        assert(proc.task_of(w as int).wf());
                        lemma_base_wf_task_update(mid, *proc, w as int);
                        assert forall|s2: int| 0 <= s2 < RES_LIMIT && s2 != sem_id
                            && old(proc).sem_slot_ok(s2) implies proc.sem_slot_ok(s2) by {
                            assert(mid.sem_slot_ok(s2));
                        }
                        assert forall|m: int| 0 <= m < RES_LIMIT && old(proc).mutex_slot_ok(m)
                            implies proc.mutex_slot_ok(m) by {
                            assert(mid.mutex_slot_ok(m));
                        }
                        assert forall|c: int| 0 <= c < RES_LIMIT && old(proc).cond_slot_ok(c)
                            implies proc.cond_slot_ok(c) by {
                            assert(mid.cond_slot_ok(c));
                        }
                        assert(queue_wf(
                            proc.tasks@,
                            self.inner.wait_queue@,
                            BlockedOn::OnSem(sem_id),
                            sem_id as int,
                            true,
                        )) by {
                            assert forall|k: int| 0 <= k < q0.len() - 1 implies {
                                &&& self.inner.wait_queue@[k] == q0[k + 1]
                                &&& q0[k + 1] != w
                                &&& q0[k + 1] != tid
                                &&& proc.tasks@[q0[k + 1] as int]
                                    == old(proc).tasks@[q0[k + 1] as int]
                            } by {
                                assert(q0[k + 1] != q0[0]);
                            }
                        }
                        assert(proc.base_wf());
                        assert(proc.sem_inv(*self, sem_id as int));
                    }
                    Some(w)
                }
                None => {
                    proof {
                        assert(self.inner.wait_queue@ =~= q0);
                        assert(proc.base_wf());
                        assert(proc.sem_inv(*self, sem_id as int));
                    }
                    None
                }
            }
        } else {
            proof {
                assert(old(proc).available_sem@[sem_id as int]
                    + sum_allocated(old(proc).tasks@, sem_id as int, true)
                    <= old(self).inner.cap@);
            }
            proc.available_sem[sem_id] = proc.available_sem[sem_id] + 1;
            proof {
                assert(queue_wf(
                    proc.tasks@,
                    self.inner.wait_queue@,
                    BlockedOn::OnSem(sem_id),
                    sem_id as int,
                    true,
                )) by {
                    assert forall|k: int| 0 <= k < q0.len()
                        implies proc.tasks@[q0[k] as int] == old(proc).tasks@[q0[k] as int] by {
                        assert(q0[k] != tid);
                    }
                }
                assert forall|i: int| #[trigger] proc.live(i) implies proc.task_of(i).wf()
                    && proc.task_res_allocator.is_allocated(i) by {
                    assert(mid.live(i));
                }
                assert(proc.base_wf());
                assert(proc.sem_inv(*self, sem_id as int));
            }
            None
        }
    }
}

} // verus!
