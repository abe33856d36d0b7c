//! Mutex primitives: a busy-wait variant and a blocking variant with a FIFO
//! wait queue and deadlock-safe accounting.

use vstd::prelude::*;
use std::collections::VecDeque;
use crate::{BLOCKED, DEADLOCK_ERR, RES_LIMIT};
use crate::accounting::{lemma_sum_le, lemma_sum_update, slot_needed, sum_allocated};
use crate::deadlock::{can_complete, lemma_can_complete_agree, snapshots_agree};
use crate::process::{lemma_base_wf_task_update, lemma_slots_preserved_task_update, queue_wf, ProcessControlBlockInner};
use crate::task::{BlockedOn, TaskStatus};

verus! {

/// Busy-wait mutex: contention is resolved by yielding and retrying, with no
/// wait queue and no deadlock bookkeeping.
pub struct MutexSpin {
    /// Is the mutex held?
    pub locked: bool,
}

impl MutexSpin {
    /// Creates an unheld busy-wait mutex.
    pub fn new() -> (m: MutexSpin)
        ensures
            !m.locked,
    {
        MutexSpin { locked: false }
    }

    /// One lock attempt. Returns 0 when the mutex was free and is now held;
    /// `BLOCKED` when it was held, in which case the caller yields the
    /// processor and retries. No accounting is kept for this variant.
    pub fn lock(&mut self) -> (r: isize)
        ensures
            final(self).locked,
            r == 0 || r == BLOCKED,
            (r == 0 <==> !old(self).locked),
    {
        if self.locked {
            BLOCKED
        } else {
            self.locked = true;
            0
        }
    }

    /// Releases the mutex.
    pub fn unlock(&mut self)
        ensures
            !final(self).locked,
    {
        self.locked = false;
    }
}

/// Blocking mutex: contention parks the caller on a FIFO wait queue.
pub struct MutexBlocking {
    /// Lock flag and wait queue.
    pub inner: MutexBlockingInner,
}

/// State of a blocking mutex.
pub struct MutexBlockingInner {
    /// Is the mutex held?
    pub locked: bool,
    /// Thread ids blocked on this mutex, in blocking order.
    pub wait_queue: VecDeque<usize>,
}

impl MutexBlocking {
    /// Creates an unheld blocking mutex with an empty wait queue.
    pub fn new() -> (m: MutexBlocking)
        ensures
            !m.inner.locked,
            m.inner.wait_queue@.len() == 0,
    {
        MutexBlocking {
            inner: MutexBlockingInner { locked: false, wait_queue: VecDeque::new() },
        }
    }

    /// One `lock` step by the running task `tid`, on this mutex taken out of
    /// slot `mutex_id` of `proc`'s table. Returns 0 when the free mutex was
    /// acquired; `BLOCKED` when the caller was parked on the wait queue (it
    /// holds the mutex once woken); `DEADLOCK_ERR` when detection is on and
    /// parking could never be woken — the task's request stays recorded.
    pub fn lock(&mut self, proc: &mut ProcessControlBlockInner, tid: usize, mutex_id: usize) -> (r: isize)
        requires
            old(proc).base_wf(),
            old(proc).detect_pre(false),
            old(proc).live(tid as int),
            old(proc).task_of(tid as int).task_status is Running,
            mutex_id < RES_LIMIT,
            old(proc).mutex_inv_blocking(*old(self), mutex_id as int),
            old(self).inner.locked
                ==> old(proc).task_of(tid as int).needed@[mutex_id as int] < usize::MAX,
        ensures
            final(proc).base_wf(),
            final(proc).tasks@.len() == old(proc).tasks@.len(),
            forall|j: int| 0 <= j < old(proc).tasks@.len() && j != tid
                ==> final(proc).tasks@[j] == old(proc).tasks@[j],
            final(proc).live(tid as int),
            final(proc).available_sem@ == old(proc).available_sem@,
            final(proc).mutex_list@ == old(proc).mutex_list@,
            final(proc).semaphore_list@ == old(proc).semaphore_list@,
            final(proc).condvar_list@ == old(proc).condvar_list@,
            final(proc).fd_table == old(proc).fd_table,
            final(proc).children == old(proc).children,
            final(proc).parent == old(proc).parent,
            final(proc).memory_set == old(proc).memory_set,
            final(proc).exit_code == old(proc).exit_code,
            final(proc).is_zombie == old(proc).is_zombie,
            final(proc).signals == old(proc).signals,
            final(proc).deadlock_flag == old(proc).deadlock_flag,
            final(proc).task_res_allocator == old(proc).task_res_allocator,
            ({
                let t0 = old(proc).task_of(tid as int);
                let t1 = final(proc).task_of(tid as int);
                &&& t1.mutex_id == mutex_id
                &&& t1.sem_id == t0.sem_id
                &&& t1.exit_code == t0.exit_code
                &&& t1.start_time == t0.start_time
                &&& t1.run_time == t0.run_time
                &&& t1.allocated_sem == t0.allocated_sem
                &&& t1.needed_sem == t0.needed_sem
                &&& t1.wf()
            }),
            final(self).inner.locked,
            r == 0 || r == BLOCKED || r == DEADLOCK_ERR,
            (r == 0 <==> !old(self).inner.locked),
            (r == 0 ==> {
                let t0 = old(proc).task_of(tid as int);
                let t1 = final(proc).task_of(tid as int);
                &&& t1.allocated@ == t0.allocated@.update(
                    mutex_id as int, (t0.allocated@[mutex_id as int] + 1) as usize)
                &&& t1.needed@ == t0.needed@
                &&& t1.task_status == t0.task_status
                &&& t1.blocked_on == t0.blocked_on
                &&& final(proc).available@ == old(proc).available@.update(mutex_id as int, 0)
                &&& final(self).inner.wait_queue@ == old(self).inner.wait_queue@
            }),
            (old(self).inner.locked ==> {
                let t0 = old(proc).task_of(tid as int);
                let t1 = final(proc).task_of(tid as int);
                &&& t1.needed@ == t0.needed@.update(
                    mutex_id as int, (t0.needed@[mutex_id as int] + 1) as usize)
                &&& t1.allocated@ == t0.allocated@
                &&& final(proc).available@ == old(proc).available@
                &&& (r == DEADLOCK_ERR <==> (old(proc).deadlock_flag
                    && !can_complete(final(proc).tasks@, old(proc).available@, false)))
                &&& (r == DEADLOCK_ERR ==> t1.task_status is Running
                    && t1.blocked_on@ is Nothing
                    && final(self).inner.wait_queue@ == old(self).inner.wait_queue@)
                &&& (r == BLOCKED ==> t1.task_status is Blocked
                    && t1.blocked_on@ == BlockedOn::OnMutex(mutex_id)
                    && final(self).inner.wait_queue@ == old(self).inner.wait_queue@.push(tid))
            }),
            final(proc).mutex_inv_blocking(*final(self), mutex_id as int),
            forall|m2: int| 0 <= m2 < RES_LIMIT && m2 != mutex_id && old(proc).mutex_slot_ok(m2)
                ==> final(proc).mutex_slot_ok(m2),
            forall|s2: int| 0 <= s2 < RES_LIMIT && old(proc).sem_slot_ok(s2)
                ==> final(proc).sem_slot_ok(s2),
            forall|c: int| 0 <= c < RES_LIMIT && old(proc).cond_slot_ok(c)
                ==> final(proc).cond_slot_ok(c),
    {
        let ghost q0 = self.inner.wait_queue@;
        proof {
            assert forall|k: int| 0 <= k < q0.len() implies q0[k] != tid by {
                assert(old(proc).tasks@[q0[k] as int]->0.task_status is Blocked);
            }
        }
        let mut t = proc.tasks[tid].take().unwrap();
        t.mutex_id = mutex_id;
        if self.inner.locked {
            t.needed[mutex_id] = t.needed[mutex_id] + 1;
            proc.tasks[tid] = Some(t);
            proof {
                lemma_slots_preserved_task_update(
                    *old(proc), *proc, tid as int, mutex_id as int, -1);
                assert(proc.tasks@ =~= old(proc).tasks@.update(
                    tid as int, proc.tasks@[tid as int]));
                lemma_sum_update(
                    old(proc).tasks@, tid as int, proc.tasks@[tid as int], mutex_id as int, false);
                assert(sum_allocated(proc.tasks@, mutex_id as int, false)
                    == sum_allocated(old(proc).tasks@, mutex_id as int, false));
                assert(proc.task_of(tid as int).wf());
                lemma_base_wf_task_update(*old(proc), *proc, tid as int);
                assert forall|r: int| 0 <= r < RES_LIMIT
                    implies proc.available@[r] + sum_allocated(proc.tasks@, r, false)
                        <= usize::MAX by {
                    if r != mutex_id as int {
                        assert(sum_allocated(proc.tasks@, r, false)
                            == sum_allocated(old(proc).tasks@, r, false));
                    }
                    assert(old(proc).avail_of(false)[r]
                        + sum_allocated(old(proc).tasks@, r, false) <= usize::MAX);
                }
                assert(proc.detect_pre(false));
            }
            let safe = proc.check_deadlock();
            if !safe {
                proof {
                    assert(queue_wf(
                        proc.tasks@,
                        self.inner.wait_queue@,
                        BlockedOn::OnMutex(mutex_id),
                        mutex_id as int,
                        false,
                    )) by {
                        assert forall|k: int| 0 <= k < q0.len()
                            implies proc.tasks@[q0[k] as int] == old(proc).tasks@[q0[k] as int] by {
                            assert(q0[k] != tid);
                        }
                    }
                    assert(proc.mutex_inv_blocking(*self, mutex_id as int));
                }
                DEADLOCK_ERR
            } else {
                self.inner.wait_queue.push_back(tid);
                let ghost mid = *proc;
                let mut t = proc.tasks[tid].take().unwrap();
                t.task_status = TaskStatus::Blocked;
                t.blocked_on = Ghost(BlockedOn::OnMutex(mutex_id));
                proc.tasks[tid] = Some(t);
                proof {
                    lemma_slots_preserved_task_update(
                        mid, *proc, tid as int, mutex_id as int, -1);
                    assert(proc.tasks@ =~= mid.tasks@.update(tid as int, proc.tasks@[tid as int]));
                    lemma_sum_update(
                        mid.tasks@, tid as int, proc.tasks@[tid as int], mutex_id as int, false);
                    assert(sum_allocated(proc.tasks@, mutex_id as int, false)
                        == sum_allocated(mid.tasks@, mutex_id as int, false));
                    assert(snapshots_agree(mid.tasks@, proc.tasks@, false));
                    lemma_can_complete_agree(mid.tasks@, proc.tasks@, old(proc).available@, false);
                    assert(proc.task_of(tid as int).wf());
                    lemma_base_wf_task_update(mid, *proc, tid as int);
                    assert forall|m2: int| 0 <= m2 < RES_LIMIT && m2 != mutex_id
                        && old(proc).mutex_slot_ok(m2) implies proc.mutex_slot_ok(m2) by {
                        assert(mid.mutex_slot_ok(m2));
                    }
                    assert forall|s2: int| 0 <= s2 < RES_LIMIT && old(proc).sem_slot_ok(s2)
                        implies proc.sem_slot_ok(s2) by {
                        assert(mid.sem_slot_ok(s2));
                    }
                    assert forall|c: int| 0 <= c < RES_LIMIT && old(proc).cond_slot_ok(c)
                        implies proc.cond_slot_ok(c) by {
                        assert(mid.cond_slot_ok(c));
                    }
                    assert(queue_wf(
                        proc.tasks@,
                        self.inner.wait_queue@,
                        BlockedOn::OnMutex(mutex_id),
                        mutex_id as int,
                        false,
                    )) by {
                        assert forall|k: int| 0 <= k < q0.len()
                            implies proc.tasks@[q0[k] as int] == old(proc).tasks@[q0[k] as int] by {
                            assert(q0[k] != tid);
                        }
                        assert(self.inner.wait_queue@[q0.len() as int] == tid);
                    }
                    assert(proc.mutex_inv_blocking(*self, mutex_id as int));
                }
                BLOCKED
            }
        } else {
            proof {
                lemma_sum_le(old(proc).tasks@, tid as int, mutex_id as int, false);
            }
            t.allocated[mutex_id] = t.allocated[mutex_id] + 1;
            proc.tasks[tid] = Some(t);
            proof {
                assert(old(proc).available@[mutex_id as int] == 1);
            }
            proc.available[mutex_id] = proc.available[mutex_id] - 1;
            self.inner.locked = true;
            proof {
                lemma_slots_preserved_task_update(
                    *old(proc), *proc, tid as int, mutex_id as int, -1);
                assert(proc.tasks@ =~= old(proc).tasks@.update(
                    tid as int, proc.tasks@[tid as int]));
                lemma_sum_update(
                    old(proc).tasks@, tid as int, proc.tasks@[tid as int], mutex_id as int, false);
                assert(sum_allocated(proc.tasks@, mutex_id as int, false)
                    == sum_allocated(old(proc).tasks@, mutex_id as int, false) + 1);
                assert(proc.task_of(tid as int).wf());
                lemma_base_wf_task_update(*old(proc), *proc, tid as int);
                assert(queue_wf(
                    proc.tasks@,
                    self.inner.wait_queue@,
                    BlockedOn::OnMutex(mutex_id),
                    mutex_id as int,
                    false,
                )) by {
                    assert forall|k: int| 0 <= k < q0.len()
                        implies proc.tasks@[q0[k] as int] == old(proc).tasks@[q0[k] as int] by {
                        assert(q0[k] != tid);
                    }
                }
                assert(proc.mutex_inv_blocking(*self, mutex_id as int));
            }
            0
        }
    }

    /// One `unlock` step by the running task `tid`, which must hold this
    /// mutex. When a task is waiting, the mutex passes straight to the
    /// longest-blocked waiter, which is returned to be made ready; otherwise
    /// the mutex is released into the free pool.
    pub fn unlock(&mut self, proc: &mut ProcessControlBlockInner, tid: usize, mutex_id: usize) -> (woken: Option<usize>)
        requires
            old(proc).base_wf(),
            old(proc).live(tid as int),
            old(proc).task_of(tid as int).task_status is Running,
            mutex_id < RES_LIMIT,
            old(proc).mutex_inv_blocking(*old(self), mutex_id as int),
            old(self).inner.locked,
            old(proc).task_of(tid as int).allocated@[mutex_id as int] >= 1,
        ensures
            final(proc).base_wf(),
            final(proc).tasks@.len() == old(proc).tasks@.len(),
            forall|j: int| 0 <= j < old(proc).tasks@.len() && j != tid
                && (woken is Some ==> j != woken->0)
                ==> final(proc).tasks@[j] == old(proc).tasks@[j],
            final(proc).live(tid as int),
            final(proc).available_sem@ == old(proc).available_sem@,
            final(proc).mutex_list@ == old(proc).mutex_list@,
            final(proc).semaphore_list@ == old(proc).semaphore_list@,
            final(proc).condvar_list@ == old(proc).condvar_list@,
            final(proc).fd_table == old(proc).fd_table,
            final(proc).children == old(proc).children,
            final(proc).parent == old(proc).parent,
            final(proc).memory_set == old(proc).memory_set,
            final(proc).exit_code == old(proc).exit_code,
            final(proc).is_zombie == old(proc).is_zombie,
            final(proc).signals == old(proc).signals,
            final(proc).deadlock_flag == old(proc).deadlock_flag,
            final(proc).task_res_allocator == old(proc).task_res_allocator,
            ({
                let t0 = old(proc).task_of(tid as int);
                let t1 = final(proc).task_of(tid as int);
                &&& t1.mutex_id == t0.mutex_id
                &&& t1.sem_id == t0.sem_id
                &&& t1.task_status == t0.task_status
                &&& t1.blocked_on == t0.blocked_on
                &&& t1.exit_code == t0.exit_code
                &&& t1.start_time == t0.start_time
                &&& t1.run_time == t0.run_time
                &&& t1.allocated_sem == t0.allocated_sem
                &&& t1.needed_sem == t0.needed_sem
                &&& t1.needed@ == t0.needed@
                &&& t1.allocated@ == t0.allocated@.update(
                    mutex_id as int, (t0.allocated@[mutex_id as int] - 1) as usize)
                &&& t1.wf()
            }),
            (woken is Some <==> old(self).inner.wait_queue@.len() > 0),
            (woken is Some ==> {
                let w = woken->0 as int;
                let w0 = old(proc).task_of(w);
                let w1 = final(proc).task_of(w);
                &&& woken->0 == old(self).inner.wait_queue@[0]
                &&& final(self).inner.wait_queue@
                    == old(self).inner.wait_queue@.subrange(
                        1, old(self).inner.wait_queue@.len() as int)
                &&& final(self).inner.locked
                &&& w != tid
                &&& final(proc).live(w)
                &&& w1.task_status is Ready
                &&& w1.blocked_on@ is Nothing
                &&& w1.needed@ == w0.needed@.update(
                    mutex_id as int, (w0.needed@[mutex_id as int] - 1) as usize)
                &&& w1.allocated@ == w0.allocated@.update(
                    mutex_id as int, (w0.allocated@[mutex_id as int] + 1) as usize)
                &&& w1.allocated_sem == w0.allocated_sem
                &&& w1.needed_sem == w0.needed_sem
                &&& w1.mutex_id == w0.mutex_id
                &&& w1.sem_id == w0.sem_id
                &&& w1.exit_code == w0.exit_code
                &&& w1.start_time == w0.start_time
                &&& w1.run_time == w0.run_time
                &&& final(proc).available@ == old(proc).available@
            }),
            (woken is None ==> {
                &&& !final(self).inner.locked
                &&& final(self).inner.wait_queue@ == old(self).inner.wait_queue@
                &&& final(proc).available@ == old(proc).available@.update(mutex_id as int, 1)
            }),
            final(proc).mutex_inv_blocking(*final(self), mutex_id as int),
            forall|m2: int| 0 <= m2 < RES_LIMIT && m2 != mutex_id && old(proc).mutex_slot_ok(m2)
                ==> final(proc).mutex_slot_ok(m2),
            forall|s2: int| 0 <= s2 < RES_LIMIT && old(proc).sem_slot_ok(s2)
                ==> final(proc).sem_slot_ok(s2),
            forall|c: int| 0 <= c < RES_LIMIT && old(proc).cond_slot_ok(c)
                ==> final(proc).cond_slot_ok(c),
    {
        let ghost q0 = self.inner.wait_queue@;
        proof {
            assert forall|k: int| 0 <= k < q0.len() implies q0[k] != tid by {
                assert(old(proc).tasks@[q0[k] as int]->0.task_status is Blocked);
            }
        }
        let mut t = proc.tasks[tid].take().unwrap();
        t.allocated[mutex_id] = t.allocated[mutex_id] - 1;
        proc.tasks[tid] = Some(t);
        let ghost mid = *proc;
        proof {
            lemma_slots_preserved_task_update(*old(proc), mid, tid as int, mutex_id as int, -1);
            assert(mid.tasks@ =~= old(proc).tasks@.update(tid as int, mid.tasks@[tid as int]));
            lemma_sum_update(
                old(proc).tasks@, tid as int, mid.tasks@[tid as int], mutex_id as int, false);
            assert(sum_allocated(mid.tasks@, mutex_id as int, false) + 1
                == sum_allocated(old(proc).tasks@, mutex_id as int, false));
            assert(mid.task_of(tid as int).wf());
            lemma_base_wf_task_update(*old(proc), mid, tid as int);
        }
        let popped = self.inner.wait_queue.pop_front();
        match popped {
            Some(w) => {
                proof {
                    assert(w == q0[0]);
                    assert(old(proc).live(q0[0] as int));
                    assert(w != tid);
                    assert(mid.tasks@[w as int] == old(proc).tasks@[w as int]);
                    assert(mid.live(w as int));
                    assert(mid.task_of(w as int).wf());
                    assert(slot_needed(old(proc).tasks@[q0[0] as int], mutex_id as int, false) >= 1);
                    lemma_sum_le(mid.tasks@, w as int, mutex_id as int, false);
                }
                let mut wt = proc.tasks[w].take().unwrap();
                wt.needed[mutex_id] = wt.needed[mutex_id] - 1;
                wt.allocated[mutex_id] = wt.allocated[mutex_id] + 1;
                wt.task_status = TaskStatus::Ready;
                wt.blocked_on = Ghost(BlockedOn::Nothing);
                proc.tasks[w] = Some(wt);
                proof {
                    lemma_slots_preserved_task_update(mid, *proc, w as int, mutex_id as int, -1);
                    assert(proc.tasks@ =~= mid.tasks@.update(w as int, proc.tasks@[w as int]));
                    lemma_sum_update(
                        mid.tasks@, w as int, proc.tasks@[w as int], mutex_id as int, false);
                    assert(sum_allocated(proc.tasks@, mutex_id as int, false)
                        == sum_allocated(mid.tasks@, mutex_id as int, false) + 1);
                    assert(proc.task_of(w as int).wf());
                    lemma_base_wf_task_update(mid, *proc, w as int);
                    assert forall|m2: int| 0 <= m2 < RES_LIMIT && m2 != mutex_id
                        && old(proc).mutex_slot_ok(m2) implies proc.mutex_slot_ok(m2) by {
                        assert(mid.mutex_slot_ok(m2));
                    }
                    assert forall|s2: int| 0 <= s2 < RES_LIMIT && old(proc).sem_slot_ok(s2)
                        implies proc.sem_slot_ok(s2) by {
                        assert(mid.sem_slot_ok(s2));
                    }
                    assert forall|c: int| 0 <= c < RES_LIMIT && old(proc).cond_slot_ok(c)
                        implies proc.cond_slot_ok(c) by {
                        assert(mid.cond_slot_ok(c));
                    }
                    assert(queue_wf(
                        proc.tasks@,
                        self.inner.wait_queue@,
                        BlockedOn::OnMutex(mutex_id),
                        mutex_id as int,
                        false,
                    )) by {
                        assert forall|k: int| 0 <= k < q0.len() - 1 implies {
                            &&& self.inner.wait_queue@[k] == q0[k + 1]
                            &&& q0[k + 1] != w
                            &&& q0[k + 1] != tid
                            &&& proc.tasks@[q0[k + 1] as int]
                                == old(proc).tasks@[q0[k + 1] as int]
                        } by {
                            assert(q0[k + 1] != q0[0]);
                        }
                    }
                    assert(proc.mutex_inv_blocking(*self, mutex_id as int));
                }
                Some(w)
            }
            None => {
                self.inner.locked = false;
                proof {
                    assert(old(proc).available@[mutex_id as int] == 0);
                }
                proc.available[mutex_id] = proc.available[mutex_id] + 1;
                proof {
                    assert forall|i: int| #[trigger] proc.live(i) implies proc.task_of(i).wf()
                        && proc.task_res_allocator.is_allocated(i) by {
                        assert(mid.live(i));
                    }
                    assert(proc.base_wf());
                    assert forall|m2: int| 0 <= m2 < RES_LIMIT && m2 != mutex_id
                        && old(proc).mutex_slot_ok(m2) implies proc.mutex_slot_ok(m2) by {
                        assert(mid.mutex_slot_ok(m2));
                    }
                    assert forall|s2: int| 0 <= s2 < RES_LIMIT && old(proc).sem_slot_ok(s2)
                        implies proc.sem_slot_ok(s2) by {
                        assert(mid.sem_slot_ok(s2));
                    }
                    assert forall|c: int| 0 <= c < RES_LIMIT && old(proc).cond_slot_ok(c)
                        implies proc.cond_slot_ok(c) by {
                        assert(mid.cond_slot_ok(c));
                    }
                    assert(self.inner.wait_queue@ =~= q0);
                    assert(proc.mutex_inv_blocking(*self, mutex_id as int));
                }
                None
            }
        }
    }
}

/// The two interchangeable mutex implementations, as stored in a process's
/// mutex table.
pub enum MutexKind {
    Spin(MutexSpin),
    Blocking(MutexBlocking),
}

} // verus!
