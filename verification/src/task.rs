//! Task (thread) control block: execution status and per-resource accounting.

use vstd::prelude::*;
use crate::{RES_LIMIT, MAX_SYSCALL_NUM};

verus! {

/// Lifecycle states of a task.
#[derive(Clone, Copy, PartialEq, Eq, Structural, Debug)]
pub enum TaskStatus {
    Ready,
    Running,
    Blocked,
    Zombie,
}

/// Which wait queue, if any, currently holds a blocked task. Ghost bookkeeping
/// used by the process invariant to keep wait queues disjoint.
#[derive(Clone, Copy, PartialEq, Eq, Structural, Debug)]
pub enum BlockedOn {
    Nothing,
    OnMutex(usize),
    OnSem(usize),
    OnCondvar(usize),
}

/// A single schedulable thread of execution within a process.
pub struct TaskControlBlock {
    /// Lifecycle status.
    pub task_status: TaskStatus,
    /// Exit code recorded when the task exits.
    pub exit_code: i32,
    /// Mutex slot of the most recent lock request.
    pub mutex_id: usize,
    /// Semaphore slot of the most recent down request.
    pub sem_id: usize,
    /// Mutex units held, per resource slot.
    pub allocated: Vec<usize>,
    /// Mutex units requested but not yet granted, per resource slot.
    pub needed: Vec<usize>,
    /// Semaphore units held, per resource slot.
    pub allocated_sem: Vec<usize>,
    /// Semaphore units requested but not yet granted, per resource slot.
    pub needed_sem: Vec<usize>,
    /// Per-syscall invocation counts.
    pub run_time: Vec<u32>,
    /// Time the task was started, in milliseconds.
    pub start_time: usize,
    /// Which wait queue holds the blocked task.
    pub blocked_on: Ghost<BlockedOn>,
}

impl TaskControlBlock {
    pub open spec fn wf(self) -> bool {
        &&& self.allocated@.len() == RES_LIMIT
        &&& self.needed@.len() == RES_LIMIT
        &&& self.allocated_sem@.len() == RES_LIMIT
        &&& self.needed_sem@.len() == RES_LIMIT
        &&& self.run_time@.len() == MAX_SYSCALL_NUM
        &&& (self.task_status is Blocked <==> !(self.blocked_on@ is Nothing))
    }

    /// A fresh task: ready to run, with empty resource accounting.
    pub fn new(start_time: usize) -> (t: TaskControlBlock)
        ensures
            t.wf(),
            t.task_status is Ready,
            t.exit_code == 0,
            t.start_time == start_time,
            forall|r: int| 0 <= r < RES_LIMIT ==> #[trigger] t.allocated@[r] == 0,
            forall|r: int| 0 <= r < RES_LIMIT ==> #[trigger] t.needed@[r] == 0,
            forall|r: int| 0 <= r < RES_LIMIT ==> #[trigger] t.allocated_sem@[r] == 0,
            forall|r: int| 0 <= r < RES_LIMIT ==> #[trigger] t.needed_sem@[r] == 0,
            forall|s: int| 0 <= s < MAX_SYSCALL_NUM ==> #[trigger] t.run_time@[s] == 0,
    {
        let mut counts: Vec<u32> = Vec::new();
        let mut s: usize = 0;
        while s < MAX_SYSCALL_NUM
            invariant
                s == counts@.len(),
                s <= MAX_SYSCALL_NUM,
                forall|r: int| 0 <= r < s ==> #[trigger] counts@[r] == 0,
            decreases MAX_SYSCALL_NUM - s,
        {
            counts.push(0);
            s = s + 1;
        }
        TaskControlBlock {
            task_status: TaskStatus::Ready,
            exit_code: 0,
            mutex_id: 0,
            sem_id: 0,
            allocated: zero_vec(RES_LIMIT),
            needed: zero_vec(RES_LIMIT),
            allocated_sem: zero_vec(RES_LIMIT),
            needed_sem: zero_vec(RES_LIMIT),
            run_time: counts,
            start_time,
            blocked_on: Ghost(BlockedOn::Nothing),
        }
    }
}

/// A vector of `n` zeroed counters.
pub fn zero_vec(n: usize) -> (v: Vec<usize>)
    ensures
        v@.len() == n,
        forall|r: int| 0 <= r < n ==> #[trigger] v@[r] == 0,
{
    let mut zeroes: Vec<usize> = Vec::new();
    let mut k: usize = 0;
    while k < n
        invariant
            k == zeroes@.len(),
            k <= n,
            forall|r: int| 0 <= r < k ==> #[trigger] zeroes@[r] == 0,
        decreases n - k,
    {
        zeroes.push(0);
        k = k + 1;
    }
    zeroes
}

} // verus!
