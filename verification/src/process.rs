//! Process control block: per-process shared state — address space handle,
//! children, file descriptors, task table, sync-object tables and the
//! resource accounting that the deadlock detector reads.

use vstd::prelude::*;
use crate::{BLOCKED, DEADLOCK_ERR, MAX_SYSCALL_NUM, RES_LIMIT};
use crate::deadlock::can_complete;
use crate::accounting::{slot_allocated, slot_needed, sum_allocated, lemma_sum_extend_none, lemma_sum_pair, lemma_sum_update};
use crate::id::RecycleAllocator;
use crate::mutex::{MutexKind, MutexSpin, MutexBlocking};
use crate::semaphore::Semaphore;
use crate::condvar::Condvar;
use crate::task::{BlockedOn, TaskControlBlock, TaskStatus};
use std::collections::VecDeque;

verus! {

/// Handle on an address space. Building, cloning and tearing down the real
/// page tables belongs to the memory subsystem; the core only keeps the
/// opaque token and the program-break bookkeeping.
pub struct MemorySet {
    /// Page-table token of this address space.
    pub token: usize,
    /// Lowest address of the heap.
    pub heap_bottom: usize,
    /// Current program break.
    pub program_brk: usize,
}

impl MemorySet {
    /// The program break never sits below the heap bottom.
    pub open spec fn wf(self) -> bool {
        self.heap_bottom <= self.program_brk
    }

    pub fn new(token: usize, heap_bottom: usize) -> (m: MemorySet)
        ensures
            m.wf(),
            m.token == token,
            m.heap_bottom == heap_bottom,
            m.program_brk == heap_bottom,
    {
        MemorySet { token, heap_bottom, program_brk: heap_bottom }
    }

    /// Address-space token used by the translation black box.
    pub fn token(&self) -> (t: usize)
        ensures
            t == self.token,
    {
        self.token
    }

    /// Grows or shrinks the data segment by `size` bytes; returns the old
    /// break, or `None` when the move would fall below the heap bottom or
    /// past the address range.
    pub fn change_program_brk(&mut self, size: i32) -> (r: Option<usize>)
        requires
            old(self).wf(),
        ensures
            final(self).wf(),
            ({
                let moved = old(self).program_brk + size as int;
                if old(self).heap_bottom <= moved <= usize::MAX {
                    &&& r == Some(old(self).program_brk)
                    &&& final(self).program_brk == moved
                    &&& final(self).heap_bottom == old(self).heap_bottom
                    &&& final(self).token == old(self).token
                } else {
                    &&& r is None
                    &&& *final(self) == *old(self)
                }
            }),
    {
        let old_brk = self.program_brk;
        if size >= 0 {
            let grow = size as usize;
            if grow <= usize::MAX - self.program_brk {
                self.program_brk = self.program_brk + grow;
                Some(old_brk)
            } else {
                None
            }
        } else {
            let shrink = (-(size as i64)) as usize;
            if shrink <= self.program_brk && self.program_brk - shrink >= self.heap_bottom {
                self.program_brk = self.program_brk - shrink;
                Some(old_brk)
            } else {
                None
            }
        }
    }
}

/// What the program-image black box hands back for a loaded image.
pub struct Image {
    /// Page-table token of the fresh address space.
    pub token: usize,
    /// Entry point of the image.
    pub entry_point: usize,
    /// Base of the user stack area.
    pub ustack_base: usize,
}

/// Pending signal bits of a process.
#[derive(Clone, Copy, PartialEq, Eq, Structural, Debug)]
pub struct SignalFlags {
    pub bits: u32,
}

impl SignalFlags {
    pub fn empty() -> (s: SignalFlags)
        ensures
            s.bits == 0,
    {
        SignalFlags { bits: 0 }
    }
}

/// Process Control Block: immutable pid plus the mutable inner state.
pub struct ProcessControlBlock {
    /// Process id; doubles as the slot index in the kernel's process table.
    pub pid: usize,
    /// Mutable process state.
    pub inner: ProcessControlBlockInner,
}

/// Mutable state of a process.
pub struct ProcessControlBlockInner {
    /// Has this process exited?
    pub is_zombie: bool,
    /// Address space.
    pub memory_set: MemorySet,
    /// Pid of the parent; a non-owning back-reference.
    pub parent: Option<usize>,
    /// Pids of the children; the owning direction of the tree.
    pub children: Vec<usize>,
    /// Exit code recorded on exit.
    pub exit_code: i32,
    /// File descriptor table: slot-based, nullable; entries are indices into
    /// the kernel's open-file table, so copies share the underlying file.
    pub fd_table: Vec<Option<usize>>,
    /// Pending signals.
    pub signals: SignalFlags,
    /// Tasks (threads) of this process; slot index is the thread id.
    pub tasks: Vec<Option<TaskControlBlock>>,
    /// Thread-id recycling allocator.
    pub task_res_allocator: RecycleAllocator,
    /// Mutex table.
    pub mutex_list: Vec<Option<MutexKind>>,
    /// Semaphore table.
    pub semaphore_list: Vec<Option<Semaphore>>,
    /// Condition-variable table.
    pub condvar_list: Vec<Option<Condvar>>,
    /// Is deadlock detection enabled?
    pub deadlock_flag: bool,
    /// Free units of each mutex resource.
    pub available: Vec<usize>,
    /// Free units of each semaphore resource.
    pub available_sem: Vec<usize>,
}

/// Well-formedness of one wait queue: members are live, blocked exactly on
/// this primitive, still requesting at least one unit, and queued once.
pub open spec fn queue_wf(
    tasks: Seq<Option<TaskControlBlock>>,
    q: Seq<usize>,
    on: BlockedOn,
    r: int,
    sem: bool,
) -> bool {
    &&& forall|k: int| 0 <= k < q.len() ==> {
        let w = (#[trigger] q[k]) as int;
        &&& 0 <= w < tasks.len()
        &&& tasks[w] is Some
        &&& tasks[w]->0.task_status is Blocked
        &&& tasks[w]->0.blocked_on@ == on
        &&& slot_needed(tasks[w], r, sem) >= 1
    }
    &&& q.no_duplicates()
}

/// Wait queue of a condition variable: like `queue_wf` but with no resource
/// accounting attached.
pub open spec fn cond_queue_wf(tasks: Seq<Option<TaskControlBlock>>, q: Seq<usize>, c: int) -> bool {
    &&& forall|k: int| 0 <= k < q.len() ==> {
        let w = (#[trigger] q[k]) as int;
        &&& 0 <= w < tasks.len()
        &&& tasks[w] is Some
        &&& tasks[w]->0.task_status is Blocked
        &&& tasks[w]->0.blocked_on@ == BlockedOn::OnCondvar(c as usize)
    }
    &&& q.no_duplicates()
}

impl ProcessControlBlockInner {
    /// Thread slot `tid` holds a task.
    pub open spec fn live(self, tid: int) -> bool {
        0 <= tid < self.tasks@.len() && self.tasks@[tid] is Some
    }

    /// The task in slot `tid`.
    pub open spec fn task_of(self, tid: int) -> TaskControlBlock {
        self.tasks@[tid]->0
    }

    /// Structural well-formedness: table lengths and per-task shape.
    pub open spec fn base_wf(self) -> bool {
        &&& self.available@.len() == RES_LIMIT
        &&& self.available_sem@.len() == RES_LIMIT
        &&& self.mutex_list@.len() <= RES_LIMIT
        &&& self.semaphore_list@.len() <= RES_LIMIT
        &&& self.condvar_list@.len() <= RES_LIMIT
        &&& forall|i: int| #[trigger] self.live(i) ==> self.task_of(i).wf()
        &&& self.task_res_allocator.wf()
        &&& forall|i: int| #[trigger] self.live(i) ==> self.task_res_allocator.is_allocated(i)
    }

    /// Invariant of a blocking mutex in slot `id`: its one unit is either
    /// free (`available`) or held by exactly one task, and its wait queue is
    /// well formed. An unheld mutex has no waiters.
    pub open spec fn mutex_inv_blocking(self, m: MutexBlocking, id: int) -> bool {
        &&& self.available@[id] == (if m.inner.locked { 0int } else { 1int })
        &&& sum_allocated(self.tasks@, id, false) == (if m.inner.locked { 1int } else { 0int })
        &&& queue_wf(self.tasks@, m.inner.wait_queue@, BlockedOn::OnMutex(id as usize), id, false)
        &&& (!m.inner.locked ==> m.inner.wait_queue@.len() == 0)
    }

    /// Invariant of a busy-wait mutex in slot `id`: it keeps no resource
    /// accounting, so its slot stays at one free unit and no holdings.
    pub open spec fn mutex_inv_spin(self, id: int) -> bool {
        &&& self.available@[id] == 1
        &&& sum_allocated(self.tasks@, id, false) == 0
    }

    pub open spec fn mutex_inv(self, k: MutexKind, id: int) -> bool {
        match k {
            MutexKind::Spin(_) => self.mutex_inv_spin(id),
            MutexKind::Blocking(b) => self.mutex_inv_blocking(b, id),
        }
    }

    /// A mutex slot with nothing created in it carries no units.
    pub open spec fn empty_mutex_slot(self, id: int) -> bool {
        &&& self.available@[id] == 0
        &&& sum_allocated(self.tasks@, id, false) == 0
    }

    pub open spec fn mutex_slot_ok(self, id: int) -> bool {
        if 0 <= id < self.mutex_list@.len() {
            match self.mutex_list@[id] {
                Some(k) => self.mutex_inv(k, id),
                None => self.empty_mutex_slot(id),
            }
        } else {
            self.empty_mutex_slot(id)
        }
    }

    /// Invariant of the semaphore `sem` sitting in slot `s`. Its capacity
    /// bounds the free units plus all holdings; the counter plus holdings
    /// plus waiters never exceeds the capacity (a predicted-deadlock `down`
    /// leaves the counter decremented, so these are upper bounds); and a
    /// non-negative counter is covered by the free units.
    pub open spec fn sem_inv(self, sem: Semaphore, s: int) -> bool {
        let cnt = sem.inner.count as int;
        let q = sem.inner.wait_queue@;
        let cap = sem.inner.cap@ as int;
        &&& 0 <= cap <= isize::MAX
        &&& self.available_sem@[s] + sum_allocated(self.tasks@, s, true) <= cap
        &&& sum_allocated(self.tasks@, s, true) <= cap
        &&& cnt + sum_allocated(self.tasks@, s, true) + q.len() <= cap
        &&& (cnt >= 0 ==> self.available_sem@[s] >= cnt)
        &&& queue_wf(self.tasks@, q, BlockedOn::OnSem(s as usize), s, true)
    }

    /// Exact resource accounting of semaphore `sem` in slot `s`: free units
    /// plus all holdings equal the capacity. Holds at creation and is kept
    /// by every operation except an `up` applied after a predicted-deadlock
    /// `down` already left the counter short.
    pub open spec fn sem_accounting_exact(self, sem: Semaphore, s: int) -> bool {
        self.available_sem@[s] + sum_allocated(self.tasks@, s, true) == sem.inner.cap@
    }

    pub open spec fn empty_sem_slot(self, s: int) -> bool {
        &&& self.available_sem@[s] == 0
        &&& sum_allocated(self.tasks@, s, true) == 0
    }

    pub open spec fn sem_slot_ok(self, s: int) -> bool {
        if 0 <= s < self.semaphore_list@.len() {
            match self.semaphore_list@[s] {
                Some(sem) => self.sem_inv(sem, s),
                None => self.empty_sem_slot(s),
            }
        } else {
            self.empty_sem_slot(s)
        }
    }

    pub open spec fn cond_slot_ok(self, c: int) -> bool {
        0 <= c < self.condvar_list@.len() ==> match self.condvar_list@[c] {
            Some(cv) => cond_queue_wf(self.tasks@, cv.wait_queue@, c),
            None => true,
        }
    }

    /// Full process invariant.
    pub open spec fn wf(self) -> bool {
        &&& self.base_wf()
        &&& forall|r: int| 0 <= r < RES_LIMIT ==> #[trigger] self.mutex_slot_ok(r)
        &&& forall|r: int| 0 <= r < RES_LIMIT ==> #[trigger] self.sem_slot_ok(r)
        &&& forall|r: int| 0 <= r < RES_LIMIT ==> #[trigger] self.cond_slot_ok(r)
    }

    /// Turns deadlock detection on or off for this process.
    pub fn set_deadlock_flag(&mut self, flag: bool)
        ensures
            *final(self) == (ProcessControlBlockInner { deadlock_flag: flag, ..*old(self) }),
    {
        self.deadlock_flag = flag;
    }

    /// Token of this process's address space.
    pub fn get_user_token(&self) -> (t: usize)
        ensures
            t == self.memory_set.token,
    {
        self.memory_set.token()
    }

    /// Returns the lowest free file-descriptor slot, extending the table by
    /// one empty slot when every slot is occupied.
    pub fn alloc_fd(&mut self) -> (fd: usize)
        requires
            old(self).fd_table@.len() < usize::MAX,
        ensures
            fd < final(self).fd_table@.len(),
            final(self).fd_table@[fd as int] is None,
            forall|j: int| 0 <= j < fd ==> old(self).fd_table@[j] is Some,
            *final(self) == (ProcessControlBlockInner { fd_table: final(self).fd_table, ..*old(self) }),
            (fd < old(self).fd_table@.len() ==> final(self).fd_table == old(self).fd_table),
            (fd == old(self).fd_table@.len() ==> final(self).fd_table@
                == old(self).fd_table@.push(None)),
    {
        let mut fd: usize = 0;
        while fd < self.fd_table.len()
            invariant
                fd <= self.fd_table@.len(),
                forall|j: int| 0 <= j < fd ==> self.fd_table@[j] is Some,
                self == old(self),
            decreases self.fd_table@.len() - fd,
        {
            if self.fd_table[fd].is_none() {
                return fd;
            }
            fd = fd + 1;
        }
        self.fd_table.push(None);
        fd
    }

    /// Allocates a new thread id.
    pub fn alloc_tid(&mut self) -> (tid: usize)
        requires
            old(self).task_res_allocator.wf(),
            old(self).task_res_allocator.current < usize::MAX,
        ensures
            *final(self) == (ProcessControlBlockInner {
                task_res_allocator: final(self).task_res_allocator, ..*old(self)
            }),
            final(self).task_res_allocator.wf(),
            !old(self).task_res_allocator.is_allocated(tid as int),
            final(self).task_res_allocator.is_allocated(tid as int),
            forall|j: int| 0 <= j < tid ==> old(self).task_res_allocator.is_allocated(j),
            forall|j: int| j != tid ==> final(self).task_res_allocator.is_allocated(j)
                == old(self).task_res_allocator.is_allocated(j),
    {
        self.task_res_allocator.allocate()
    }

    /// Frees a thread id.
    pub fn dealloc_tid(&mut self, tid: usize)
        requires
            old(self).task_res_allocator.wf(),
            old(self).task_res_allocator.is_allocated(tid as int),
        ensures
            *final(self) == (ProcessControlBlockInner {
                task_res_allocator: final(self).task_res_allocator, ..*old(self)
            }),
            final(self).task_res_allocator.wf(),
            !final(self).task_res_allocator.is_allocated(tid as int),
            forall|j: int| j != tid ==> final(self).task_res_allocator.is_allocated(j)
                == old(self).task_res_allocator.is_allocated(j),
    {
        self.task_res_allocator.deallocate(tid)
    }

    /// Number of thread slots in this process (occupied or not).
    pub fn thread_count(&self) -> (n: usize)
        ensures
            n == self.tasks@.len(),
    {
        self.tasks.len()
    }

    /// The task with thread id `tid`.
    pub fn get_task(&self, tid: usize) -> (t: &TaskControlBlock)
        requires
            self.live(tid as int),
        ensures
            *t == self.task_of(tid as int),
    {
        self.tasks[tid].as_ref().unwrap()
    }
}

/// The task may only be parked on the exempt mutex or semaphore slot.
pub open spec fn blocked_within(b: BlockedOn, ex_m: int, ex_s: int) -> bool {
    match b {
        BlockedOn::Nothing => true,
        BlockedOn::OnMutex(m) => m == ex_m,
        BlockedOn::OnSem(s) => s == ex_s,
        BlockedOn::OnCondvar(_) => false,
    }
}

/// Replacing one live task by another well-formed one keeps the structural
/// invariant.
pub proof fn lemma_base_wf_task_update(
    p1: ProcessControlBlockInner,
    p2: ProcessControlBlockInner,
    tid: int,
)
    requires
        p1.base_wf(),
        p2.tasks@.len() == p1.tasks@.len(),
        0 <= tid < p1.tasks@.len(),
        forall|j: int| 0 <= j < p1.tasks@.len() && j != tid
            ==> p2.tasks@[j] == p1.tasks@[j],
        p1.tasks@[tid] is Some,
        p2.tasks@[tid] is Some,
        p2.task_of(tid).wf(),
        p2.available@.len() == RES_LIMIT,
        p2.available_sem@.len() == RES_LIMIT,
        p2.mutex_list@.len() <= RES_LIMIT,
        p2.semaphore_list@.len() <= RES_LIMIT,
        p2.condvar_list@.len() <= RES_LIMIT,
        p2.task_res_allocator == p1.task_res_allocator,
    ensures
        p2.base_wf(),
{
    assert forall|i: int| #[trigger] p2.live(i)
        implies p2.task_of(i).wf() && p2.task_res_allocator.is_allocated(i) by {
        assert(p1.live(i));
        if i != tid {
            assert(p2.tasks@[i] == p1.tasks@[i]);
        }
    }
}

/// Changing one task without touching its accounting outside the exempt
/// slots, and without parking it anywhere but the exempt slots, preserves
/// every other resource slot's invariant and leaves all other sums as they
/// were.
pub proof fn lemma_slots_preserved_task_update(
    p1: ProcessControlBlockInner,
    p2: ProcessControlBlockInner,
    tid: int,
    ex_m: int,
    ex_s: int,
)
    requires
        p1.tasks@.len() == p2.tasks@.len(),
        0 <= tid < p1.tasks@.len(),
        p1.tasks@[tid] is Some,
        p2.tasks@[tid] is Some,
        forall|j: int| 0 <= j < p1.tasks@.len() && j != tid
            ==> p2.tasks@[j] == p1.tasks@[j],
        forall|r: int| 0 <= r < RES_LIMIT && r != ex_m ==> p2.available@[r] == p1.available@[r],
        forall|r: int| 0 <= r < RES_LIMIT && r != ex_s
            ==> p2.available_sem@[r] == p1.available_sem@[r],
        p2.mutex_list@.len() == p1.mutex_list@.len(),
        forall|m: int| 0 <= m < p1.mutex_list@.len() && m != ex_m
            ==> p2.mutex_list@[m] == p1.mutex_list@[m],
        p2.semaphore_list@.len() == p1.semaphore_list@.len(),
        forall|r: int| 0 <= r < p1.semaphore_list@.len() && r != ex_s
            ==> p2.semaphore_list@[r] == p1.semaphore_list@[r],
        p2.condvar_list@ == p1.condvar_list@,
        forall|r: int| 0 <= r < RES_LIMIT && r != ex_m ==> {
            &&& p2.task_of(tid).allocated@[r] == p1.task_of(tid).allocated@[r]
            &&& p2.task_of(tid).needed@[r] == p1.task_of(tid).needed@[r]
        },
        forall|r: int| 0 <= r < RES_LIMIT && r != ex_s ==> {
            &&& p2.task_of(tid).allocated_sem@[r] == p1.task_of(tid).allocated_sem@[r]
            &&& p2.task_of(tid).needed_sem@[r] == p1.task_of(tid).needed_sem@[r]
        },
        blocked_within(p1.task_of(tid).blocked_on@, ex_m, ex_s),
        blocked_within(p2.task_of(tid).blocked_on@, ex_m, ex_s),
    ensures
        forall|r: int| 0 <= r < RES_LIMIT && r != ex_m
            ==> sum_allocated(p2.tasks@, r, false) == sum_allocated(p1.tasks@, r, false),
        forall|r: int| 0 <= r < RES_LIMIT && r != ex_s
            ==> sum_allocated(p2.tasks@, r, true) == sum_allocated(p1.tasks@, r, true),
        forall|m: int| 0 <= m < RES_LIMIT && m != ex_m && p1.mutex_slot_ok(m)
            ==> p2.mutex_slot_ok(m),
        forall|s: int| 0 <= s < RES_LIMIT && s != ex_s && p1.sem_slot_ok(s)
            ==> p2.sem_slot_ok(s),
        forall|c: int| 0 <= c < RES_LIMIT && p1.cond_slot_ok(c) ==> p2.cond_slot_ok(c),
{
    assert(p2.tasks@ =~= p1.tasks@.update(tid, p2.tasks@[tid]));
    assert forall|r: int| 0 <= r < RES_LIMIT && r != ex_m
        implies sum_allocated(p2.tasks@, r, false) == sum_allocated(p1.tasks@, r, false) by {
        lemma_sum_update(p1.tasks@, tid, p2.tasks@[tid], r, false);
    }
    assert forall|r: int| 0 <= r < RES_LIMIT && r != ex_s
        implies sum_allocated(p2.tasks@, r, true) == sum_allocated(p1.tasks@, r, true) by {
        lemma_sum_update(p1.tasks@, tid, p2.tasks@[tid], r, true);
    }
    assert forall|m: int| 0 <= m < RES_LIMIT && m != ex_m && p1.mutex_slot_ok(m)
        implies p2.mutex_slot_ok(m) by {
        if 0 <= m < p1.mutex_list@.len() && p1.mutex_list@[m] is Some {
            match p1.mutex_list@[m]->0 {
                MutexKind::Spin(_) => {}
                MutexKind::Blocking(b) => {
                    let q = b.inner.wait_queue@;
                    assert forall|k2: int| 0 <= k2 < q.len() implies {
                        let w = (#[trigger] q[k2]) as int;
                        &&& 0 <= w < p2.tasks@.len()
                        &&& p2.tasks@[w] is Some
                        &&& p2.tasks@[w]->0.task_status is Blocked
                        &&& p2.tasks@[w]->0.blocked_on@ == BlockedOn::OnMutex(m as usize)
                        &&& slot_needed(p2.tasks@[w], m, false) >= 1
                    } by {
                        let w = q[k2] as int;
                        if w == tid {
                            assert(p1.tasks@[w]->0.blocked_on@ == BlockedOn::OnMutex(m as usize));
                            assert(false);
                        }
                    }
                    assert(queue_wf(
                        p2.tasks@, q, BlockedOn::OnMutex(m as usize), m, false,
                    ));
                }
            }
        }
    }
    assert forall|s: int| 0 <= s < RES_LIMIT && s != ex_s && p1.sem_slot_ok(s)
        implies p2.sem_slot_ok(s) by {
        if 0 <= s < p1.semaphore_list@.len() && p1.semaphore_list@[s] is Some {
            let sm = p1.semaphore_list@[s]->0;
            let q = sm.inner.wait_queue@;
            assert forall|k2: int| 0 <= k2 < q.len() implies {
                let w = (#[trigger] q[k2]) as int;
                &&& 0 <= w < p2.tasks@.len()
                &&& p2.tasks@[w] is Some
                &&& p2.tasks@[w]->0.task_status is Blocked
                &&& p2.tasks@[w]->0.blocked_on@ == BlockedOn::OnSem(s as usize)
                &&& slot_needed(p2.tasks@[w], s, true) >= 1
            } by {
                let w = q[k2] as int;
                if w == tid {
                    assert(p1.tasks@[w]->0.blocked_on@ == BlockedOn::OnSem(s as usize));
                    assert(false);
                }
            }
            assert(queue_wf(p2.tasks@, q, BlockedOn::OnSem(s as usize), s, true));
        }
    }
    assert forall|c: int| 0 <= c < RES_LIMIT && p1.cond_slot_ok(c)
        implies p2.cond_slot_ok(c) by {
        if 0 <= c < p1.condvar_list@.len() && p1.condvar_list@[c] is Some {
            let cv = p1.condvar_list@[c]->0;
            let q = cv.wait_queue@;
            assert forall|k2: int| 0 <= k2 < q.len() implies {
                let w = (#[trigger] q[k2]) as int;
                &&& 0 <= w < p2.tasks@.len()
                &&& p2.tasks@[w] is Some
                &&& p2.tasks@[w]->0.task_status is Blocked
                &&& p2.tasks@[w]->0.blocked_on@ == BlockedOn::OnCondvar(c as usize)
            } by {
                let w = q[k2] as int;
                if w == tid {
                    assert(p1.tasks@[w]->0.blocked_on@ == BlockedOn::OnCondvar(c as usize));
                    assert(false);
                }
            }
            assert(cond_queue_wf(p2.tasks@, q, c));
        }
    }
}


impl ProcessControlBlockInner {
    /// Creates a new task slot holding a fresh, ready task with zeroed
    /// accounting, and returns its thread id (the smallest free one).
    pub fn create_task(&mut self, start_time: usize) -> (tid: usize)
        requires
            old(self).wf(),
            old(self).task_res_allocator.current < usize::MAX,
            old(self).tasks@.len() < usize::MAX,
        ensures
            final(self).wf(),
            !old(self).task_res_allocator.is_allocated(tid as int),
            forall|j: int| 0 <= j < tid ==> old(self).task_res_allocator.is_allocated(j),
            final(self).live(tid as int),
            final(self).tasks@.len() == (if tid < old(self).tasks@.len() {
                old(self).tasks@.len() as int
            } else {
                tid + 1
            }),
            forall|j: int| 0 <= j < old(self).tasks@.len() && j != tid
                ==> final(self).tasks@[j] == old(self).tasks@[j],
            forall|j: int| old(self).tasks@.len() <= j < final(self).tasks@.len() && j != tid
                ==> final(self).tasks@[j] is None,
            ({
                let t = final(self).task_of(tid as int);
                &&& t.task_status is Ready
                &&& t.start_time == start_time
                &&& t.exit_code == 0
                &&& (forall|r: int| 0 <= r < RES_LIMIT ==> #[trigger] t.allocated@[r] == 0)
                &&& (forall|r: int| 0 <= r < RES_LIMIT ==> #[trigger] t.needed@[r] == 0)
                &&& (forall|r: int| 0 <= r < RES_LIMIT ==> #[trigger] t.allocated_sem@[r] == 0)
                &&& (forall|r: int| 0 <= r < RES_LIMIT ==> #[trigger] t.needed_sem@[r] == 0)
            }),
            final(self).mutex_list@ == old(self).mutex_list@,
            final(self).semaphore_list@ == old(self).semaphore_list@,
            final(self).condvar_list@ == old(self).condvar_list@,
            final(self).available@ == old(self).available@,
            final(self).available_sem@ == old(self).available_sem@,
            final(self).fd_table == old(self).fd_table,
            final(self).children == old(self).children,
            final(self).parent == old(self).parent,
            final(self).memory_set == old(self).memory_set,
            final(self).exit_code == old(self).exit_code,
            final(self).is_zombie == old(self).is_zombie,
            final(self).signals == old(self).signals,
            final(self).deadlock_flag == old(self).deadlock_flag,
    {
        let tid = self.task_res_allocator.allocate();
        proof {
            if tid < self.tasks@.len() && self.tasks@[tid as int] is Some {
                assert(old(self).live(tid as int));
                assert(false);
            }
        }
        let ghost pre = *self;
        if self.tasks.len() <= tid {
            while self.tasks.len() <= tid
                invariant
                    pre.tasks@.len() <= self.tasks@.len() <= tid + 1,
                    tid < usize::MAX,
                    forall|j: int| 0 <= j < pre.tasks@.len()
                        ==> self.tasks@[j] == pre.tasks@[j],
                    forall|j: int| pre.tasks@.len() <= j < self.tasks@.len()
                        ==> self.tasks@[j] is None,
                    *self == (ProcessControlBlockInner { tasks: self.tasks, ..pre }),
                decreases tid + 1 - self.tasks@.len(),
            {
                self.tasks.push(None);
            }
        }
        let task = TaskControlBlock::new(start_time);
        self.tasks[tid] = Some(task);
        proof {
            let p0 = *old(self);
            let p2 = *self;
            assert forall|r: int, sem: bool| 0 <= r < RES_LIMIT
                implies #[trigger] sum_allocated(p2.tasks@, r, sem)
                    == sum_allocated(p0.tasks@, r, sem) by {
                let mid_tasks = p2.tasks@.update(tid as int, None);
                assert(slot_allocated(p2.tasks@[tid as int], r, sem) == 0);
                lemma_sum_update(p2.tasks@, tid as int, None, r, sem);
                lemma_sum_extend_none(p0.tasks@, mid_tasks, r, sem);
            }
            assert forall|i: int| #[trigger] p2.live(i)
                implies p2.task_of(i).wf() && p2.task_res_allocator.is_allocated(i) by {
                if i != tid {
                    assert(p0.live(i));
                    assert(p2.tasks@[i] == p0.tasks@[i]);
                }
            }
            assert(p2.base_wf());
            assert forall|r: int| 0 <= r < RES_LIMIT implies p2.mutex_slot_ok(r)
                && p2.sem_slot_ok(r) && p2.cond_slot_ok(r) by {
                assert(p0.mutex_slot_ok(r));
                assert(p0.sem_slot_ok(r));
                assert(p0.cond_slot_ok(r));
                assert(sum_allocated(p2.tasks@, r, false) == sum_allocated(p0.tasks@, r, false));
                assert(sum_allocated(p2.tasks@, r, true) == sum_allocated(p0.tasks@, r, true));
                if 0 <= r < p0.mutex_list@.len() && p0.mutex_list@[r] is Some {
                    match p0.mutex_list@[r]->0 {
                        MutexKind::Spin(_) => {}
                        MutexKind::Blocking(b) => {
                            let q = b.inner.wait_queue@;
                            assert forall|k: int| 0 <= k < q.len()
                                implies p2.tasks@[q[k] as int] == p0.tasks@[q[k] as int]
                                    && 0 <= q[k] < p2.tasks@.len() by {
                                assert(p0.tasks@[q[k] as int] is Some);
                            }
                            assert(queue_wf(p2.tasks@, q, BlockedOn::OnMutex(r as usize), r, false));
                        }
                    }
                }
                if 0 <= r < p0.semaphore_list@.len() && p0.semaphore_list@[r] is Some {
                    let sm = p0.semaphore_list@[r]->0;
                    let q = sm.inner.wait_queue@;
                    assert forall|k: int| 0 <= k < q.len()
                        implies p2.tasks@[q[k] as int] == p0.tasks@[q[k] as int]
                            && 0 <= q[k] < p2.tasks@.len() by {
                        assert(p0.tasks@[q[k] as int] is Some);
                    }
                    assert(queue_wf(p2.tasks@, q, BlockedOn::OnSem(r as usize), r, true));
                }
                if 0 <= r < p0.condvar_list@.len() && p0.condvar_list@[r] is Some {
                    let cv = p0.condvar_list@[r]->0;
                    let q = cv.wait_queue@;
                    assert forall|k: int| 0 <= k < q.len()
                        implies p2.tasks@[q[k] as int] == p0.tasks@[q[k] as int]
                            && 0 <= q[k] < p2.tasks@.len() by {
                        assert(p0.tasks@[q[k] as int] is Some);
                    }
                    assert(cond_queue_wf(p2.tasks@, q, r));
                }
            }
        }
        tid
    }
}


impl ProcessControlBlockInner {
    /// Creates a mutex (blocking when `blocking` is set, busy-wait
    /// otherwise) in the lowest free slot and stocks the slot with its one
    /// unit. Returns the slot id, or -1 when the table is exhausted.
    pub fn mutex_create(&mut self, blocking: bool) -> (r: isize)
        requires
            old(self).wf(),
        ensures
            final(self).wf(),
            final(self).tasks@ == old(self).tasks@,
            final(self).semaphore_list@ == old(self).semaphore_list@,
            final(self).condvar_list@ == old(self).condvar_list@,
            final(self).available_sem@ == old(self).available_sem@,
            final(self).fd_table == old(self).fd_table,
            final(self).children == old(self).children,
            final(self).parent == old(self).parent,
            final(self).memory_set == old(self).memory_set,
            final(self).deadlock_flag == old(self).deadlock_flag,
            final(self).task_res_allocator == old(self).task_res_allocator,
            final(self).is_zombie == old(self).is_zombie,
            final(self).exit_code == old(self).exit_code,
            final(self).signals == old(self).signals,
            (r == -1 <==> (old(self).mutex_list@.len() == RES_LIMIT
                && forall|k: int| 0 <= k < old(self).mutex_list@.len()
                    ==> old(self).mutex_list@[k] is Some)),
            (r == -1 ==> *final(self) == *old(self)),
            (r != -1 ==> {
                let id = r as int;
                &&& 0 <= id < RES_LIMIT
                &&& 0 <= id < final(self).mutex_list@.len()
                &&& final(self).mutex_list@[id] is Some
                &&& (id < old(self).mutex_list@.len() ==> old(self).mutex_list@[id] is None
                    && final(self).mutex_list@.len() == old(self).mutex_list@.len())
                &&& (id >= old(self).mutex_list@.len()
                    ==> id == old(self).mutex_list@.len()
                        && final(self).mutex_list@.len() == id + 1
                        && (forall|k: int| 0 <= k < id
                            ==> old(self).mutex_list@[k] is Some))
                &&& (forall|k: int| 0 <= k < old(self).mutex_list@.len() && k != id
                    ==> final(self).mutex_list@[k] == old(self).mutex_list@[k])
                &&& final(self).available@ == old(self).available@.update(id, 1)
                &&& match final(self).mutex_list@[id]->0 {
                    MutexKind::Spin(sp) => !blocking && !sp.locked,
                    MutexKind::Blocking(b) => blocking && !b.inner.locked
                        && b.inner.wait_queue@.len() == 0,
                }
            }),
    {
        let ghost p0 = *old(self);
        let mut id: usize = 0;
        let mut found = false;
        while id < self.mutex_list.len() && !found
            invariant
                *self == p0,
                id <= self.mutex_list@.len(),
                found ==> id < self.mutex_list@.len() && self.mutex_list@[id as int] is None,
                !found ==> forall|k: int| 0 <= k < id ==> self.mutex_list@[k] is Some,
            decreases self.mutex_list@.len() - id + (if found { 0int } else { 1int }),
        {
            if self.mutex_list[id].is_none() {
                found = true;
            } else {
                id = id + 1;
            }
        }
        if !found {
            if self.mutex_list.len() >= RES_LIMIT {
                return -1;
            }
            self.mutex_list.push(None);
        }
        let kind = if blocking {
            MutexKind::Blocking(MutexBlocking::new())
        } else {
            MutexKind::Spin(MutexSpin::new())
        };
        self.mutex_list[id] = Some(kind);
        self.available[id] = 1;
        proof {
            let p2 = *self;
            assert(p0.mutex_slot_ok(id as int));
            assert forall|i: int| #[trigger] p2.live(i) implies p2.task_of(i).wf()
                && p2.task_res_allocator.is_allocated(i) by {
                assert(p0.live(i));
            }
            assert(p2.base_wf());
            assert forall|m: int| 0 <= m < RES_LIMIT implies p2.mutex_slot_ok(m)
                && p2.sem_slot_ok(m) && p2.cond_slot_ok(m) by {
                assert(p0.mutex_slot_ok(m));
                assert(p0.sem_slot_ok(m));
                assert(p0.cond_slot_ok(m));
            }
        }
        proof {
            assert(self.available@ =~= old(self).available@.update(id as int, 1usize));
        }
        id as isize
    }

    /// Creates a semaphore with `res_count` units in the lowest free slot
    /// and stocks the slot. Returns the slot id, or -1 when the table is
    /// exhausted.
    pub fn semaphore_create(&mut self, res_count: usize) -> (r: isize)
        requires
            old(self).wf(),
            res_count <= isize::MAX,
        ensures
            final(self).wf(),
            final(self).tasks@ == old(self).tasks@,
            final(self).mutex_list@ == old(self).mutex_list@,
            final(self).condvar_list@ == old(self).condvar_list@,
            final(self).available@ == old(self).available@,
            final(self).fd_table == old(self).fd_table,
            final(self).children == old(self).children,
            final(self).parent == old(self).parent,
            final(self).memory_set == old(self).memory_set,
            final(self).deadlock_flag == old(self).deadlock_flag,
            final(self).task_res_allocator == old(self).task_res_allocator,
            final(self).is_zombie == old(self).is_zombie,
            final(self).exit_code == old(self).exit_code,
            final(self).signals == old(self).signals,
            (r == -1 <==> (old(self).semaphore_list@.len() == RES_LIMIT
                && forall|k: int| 0 <= k < old(self).semaphore_list@.len()
                    ==> old(self).semaphore_list@[k] is Some)),
            (r == -1 ==> *final(self) == *old(self)),
            (r != -1 ==> {
                let id = r as int;
                &&& 0 <= id < RES_LIMIT
                &&& 0 <= id < final(self).semaphore_list@.len()
                &&& final(self).semaphore_list@[id] is Some
                &&& (id < old(self).semaphore_list@.len()
                    ==> old(self).semaphore_list@[id] is None
                        && final(self).semaphore_list@.len()
                            == old(self).semaphore_list@.len())
                &&& (id >= old(self).semaphore_list@.len()
                    ==> id == old(self).semaphore_list@.len()
                        && final(self).semaphore_list@.len() == id + 1
                        && (forall|k: int| 0 <= k < id
                            ==> old(self).semaphore_list@[k] is Some))
                &&& (forall|k: int| 0 <= k < old(self).semaphore_list@.len() && k != id
                    ==> final(self).semaphore_list@[k] == old(self).semaphore_list@[k])
                &&& final(self).available_sem@ == old(self).available_sem@.update(id, res_count)
                &&& ({
                    let sm = final(self).semaphore_list@[id]->0;
                    &&& sm.inner.count == res_count
                    &&& sm.inner.wait_queue@.len() == 0
                    &&& sm.inner.cap@ == res_count
                    &&& final(self).sem_accounting_exact(sm, id)
                })
            }),
    {
        let ghost p0 = *old(self);
        let mut id: usize = 0;
        let mut found = false;
        while id < self.semaphore_list.len() && !found
            invariant
                *self == p0,
                id <= self.semaphore_list@.len(),
                found ==> id < self.semaphore_list@.len()
                    && self.semaphore_list@[id as int] is None,
                !found ==> forall|k: int| 0 <= k < id ==> self.semaphore_list@[k] is Some,
            decreases self.semaphore_list@.len() - id + (if found { 0int } else { 1int }),
        {
            if self.semaphore_list[id].is_none() {
                found = true;
            } else {
                id = id + 1;
            }
        }
        if !found {
            if self.semaphore_list.len() >= RES_LIMIT {
                return -1;
            }
            self.semaphore_list.push(None);
        }
        let sem = Semaphore::new(res_count);
        self.semaphore_list[id] = Some(sem);
        self.available_sem[id] = res_count;
        proof {
            let p2 = *self;
            assert(p0.sem_slot_ok(id as int));
            assert(sum_allocated(p2.tasks@, id as int, true) == 0);
            assert forall|i: int| #[trigger] p2.live(i) implies p2.task_of(i).wf()
                && p2.task_res_allocator.is_allocated(i) by {
                assert(p0.live(i));
            }
            assert(p2.base_wf());
            assert forall|m: int| 0 <= m < RES_LIMIT implies p2.mutex_slot_ok(m)
                && p2.sem_slot_ok(m) && p2.cond_slot_ok(m) by {
                assert(p0.mutex_slot_ok(m));
                assert(p0.sem_slot_ok(m));
                assert(p0.cond_slot_ok(m));
            }
            assert(self.available_sem@ =~= old(self).available_sem@.update(
                id as int, res_count));
        }
        id as isize
    }
}


impl ProcessControlBlockInner {
    /// Locks mutex `mutex_id` on behalf of the running task `tid`, recording
    /// the contended slot in the task. Returns 0 (acquired), `BLOCKED` (the
    /// task was parked — busy-wait variant: the caller yields and retries),
    /// or `DEADLOCK_ERR` (blocking variant with detection on, when parking
    /// could never be woken).
    pub fn mutex_lock(&mut self, tid: usize, mutex_id: usize) -> (r: isize)
        requires
            old(self).wf(),
            old(self).live(tid as int),
            old(self).task_of(tid as int).task_status is Running,
            mutex_id < old(self).mutex_list@.len(),
            old(self).mutex_list@[mutex_id as int] is Some,
            (match old(self).mutex_list@[mutex_id as int]->0 {
                MutexKind::Blocking(b) => b.inner.locked
                    ==> old(self).task_of(tid as int).needed@[mutex_id as int] < usize::MAX,
                MutexKind::Spin(_) => true,
            }),
        ensures
            final(self).wf(),
            final(self).tasks@.len() == old(self).tasks@.len(),
            forall|j: int| 0 <= j < old(self).tasks@.len() && j != tid
                ==> final(self).tasks@[j] == old(self).tasks@[j],
            final(self).live(tid as int),
            final(self).task_of(tid as int).mutex_id == mutex_id,
            final(self).mutex_list@.len() == old(self).mutex_list@.len(),
            forall|m2: int| 0 <= m2 < old(self).mutex_list@.len() && m2 != mutex_id
                ==> final(self).mutex_list@[m2] == old(self).mutex_list@[m2],
            final(self).mutex_list@[mutex_id as int] is Some,
            final(self).semaphore_list@ == old(self).semaphore_list@,
            final(self).condvar_list@ == old(self).condvar_list@,
            final(self).available_sem@ == old(self).available_sem@,
            final(self).fd_table == old(self).fd_table,
            final(self).children == old(self).children,
            final(self).parent == old(self).parent,
            final(self).memory_set == old(self).memory_set,
            final(self).deadlock_flag == old(self).deadlock_flag,
            final(self).task_res_allocator == old(self).task_res_allocator,
            final(self).is_zombie == old(self).is_zombie,
            final(self).exit_code == old(self).exit_code,
            r == 0 || r == BLOCKED || r == DEADLOCK_ERR,
            (match old(self).mutex_list@[mutex_id as int]->0 {
                MutexKind::Spin(sp) => {
                    &&& r != DEADLOCK_ERR
                    &&& (r == 0 <==> !sp.locked)
                    &&& final(self).available@ == old(self).available@
                    &&& final(self).task_of(tid as int).task_status
                        == old(self).task_of(tid as int).task_status
                    &&& final(self).task_of(tid as int).allocated@
                        == old(self).task_of(tid as int).allocated@
                    &&& final(self).task_of(tid as int).needed@
                        == old(self).task_of(tid as int).needed@
                    &&& (match final(self).mutex_list@[mutex_id as int]->0 {
                        MutexKind::Spin(sp2) => sp2.locked,
                        MutexKind::Blocking(_) => false,
                    })
                },
                MutexKind::Blocking(b) => {
                    let t0 = old(self).task_of(tid as int);
                    let t1 = final(self).task_of(tid as int);
                    &&& (r == 0 <==> !b.inner.locked)
                    &&& (match final(self).mutex_list@[mutex_id as int]->0 {
                        MutexKind::Spin(_) => false,
                        MutexKind::Blocking(b1) => {
                            &&& b1.inner.locked
                            &&& (r == 0 ==> b1.inner.wait_queue@ == b.inner.wait_queue@)
                            &&& (r == DEADLOCK_ERR ==> b1.inner.wait_queue@
                                == b.inner.wait_queue@)
                            &&& (r == BLOCKED ==> b1.inner.wait_queue@
                                == b.inner.wait_queue@.push(tid))
                        },
                    })
                    &&& (r == 0 ==> t1.allocated@ == t0.allocated@.update(
                            mutex_id as int, (t0.allocated@[mutex_id as int] + 1) as usize)
                        && t1.needed@ == t0.needed@
                        && t1.task_status is Running
                        && final(self).available@
                            == old(self).available@.update(mutex_id as int, 0))
                    &&& (b.inner.locked ==> t1.needed@ == t0.needed@.update(
                            mutex_id as int, (t0.needed@[mutex_id as int] + 1) as usize)
                        && t1.allocated@ == t0.allocated@
                        && final(self).available@ == old(self).available@
                        && (r == DEADLOCK_ERR <==> (old(self).deadlock_flag
                            && !can_complete(final(self).tasks@, old(self).available@, false)))
                        && (r == DEADLOCK_ERR ==> t1.task_status is Running)
                        && (r == BLOCKED ==> t1.task_status is Blocked))
                },
            }),
    {
        let ghost p0 = *old(self);
        let slot = self.mutex_list[mutex_id].take();
        let ghost p1 = *self;
        proof {
            assert(p1.base_wf()) by {
                assert forall|i: int| #[trigger] p1.live(i) implies p1.task_of(i).wf()
                    && p1.task_res_allocator.is_allocated(i) by {
                    assert(p0.live(i));
                }
            }
            p0.lemma_wf_detect_pre();
            assert(p1.detect_pre(false)) by {
                assert forall|r2: int| 0 <= r2 < RES_LIMIT
                    implies p1.avail_of(false)[r2] + sum_allocated(p1.tasks@, r2, false)
                        <= usize::MAX by {
                    assert(p0.avail_of(false)[r2] + sum_allocated(p0.tasks@, r2, false)
                        <= usize::MAX);
                }
            }
        }
        match slot {
            Some(MutexKind::Spin(mut sp)) => {
                let mut t = self.tasks[tid].take().unwrap();
                t.mutex_id = mutex_id;
                self.tasks[tid] = Some(t);
                let r = sp.lock();
                self.mutex_list[mutex_id] = Some(MutexKind::Spin(sp));
                proof {
                    let p3 = *self;
                    lemma_slots_preserved_task_update(p0, p3, tid as int, mutex_id as int, -1);
                    assert(p3.tasks@ =~= p0.tasks@.update(tid as int, p3.tasks@[tid as int]));
                    lemma_sum_update(
                        p0.tasks@, tid as int, p3.tasks@[tid as int], mutex_id as int, false);
                    assert(p3.task_of(tid as int).wf());
                    lemma_base_wf_task_update(p0, p3, tid as int);
                    assert(sum_allocated(p3.tasks@, mutex_id as int, false)
                        == sum_allocated(p0.tasks@, mutex_id as int, false));
                    assert(p0.mutex_slot_ok(mutex_id as int));
                    assert(p0.mutex_inv_spin(mutex_id as int));
                    assert(p3.mutex_inv_spin(mutex_id as int));
                    assert(p3.mutex_slot_ok(mutex_id as int));
                    assert forall|m: int| 0 <= m < RES_LIMIT implies p3.mutex_slot_ok(m)
                        && p3.sem_slot_ok(m) && p3.cond_slot_ok(m) by {
                        assert(p0.mutex_slot_ok(m));
                        assert(p0.sem_slot_ok(m));
                        assert(p0.cond_slot_ok(m));
                    }
                }
                r
            }
            Some(MutexKind::Blocking(mut b)) => {
                proof {
                    assert(p0.mutex_slot_ok(mutex_id as int));
                    assert(p1.mutex_inv_blocking(b, mutex_id as int)) by {
                        assert(queue_wf(
                            p1.tasks@,
                            b.inner.wait_queue@,
                            BlockedOn::OnMutex(mutex_id),
                            mutex_id as int,
                            false,
                        ));
                    }
                }
                let r = b.lock(self, tid, mutex_id);
                let ghost p2 = *self;
                self.mutex_list[mutex_id] = Some(MutexKind::Blocking(b));
                proof {
                    let p3 = *self;
                    assert(p3.base_wf()) by {
                        assert forall|i: int| #[trigger] p3.live(i) implies p3.task_of(i).wf()
                            && p3.task_res_allocator.is_allocated(i) by {
                            assert(p2.live(i));
                        }
                    }
                    assert forall|m: int| 0 <= m < RES_LIMIT implies p3.mutex_slot_ok(m)
                        && p3.sem_slot_ok(m) && p3.cond_slot_ok(m) by {
                        if m == mutex_id as int {
                            assert(p2.mutex_inv_blocking(b, m));
                            assert(p3.mutex_slot_ok(m));
                        } else {
                            assert(p0.mutex_slot_ok(m));
                            assert(p1.mutex_slot_ok(m));
                            assert(p2.mutex_slot_ok(m));
                        }
                        assert(p0.sem_slot_ok(m));
                        assert(p1.sem_slot_ok(m));
                        assert(p2.sem_slot_ok(m));
                        assert(p0.cond_slot_ok(m));
                        assert(p1.cond_slot_ok(m));
                        assert(p2.cond_slot_ok(m));
                    }
                }
                r
            }
            None => {
                proof {
                    assert(false);
                }
                0
            }
        }
    }

    /// Unlocks mutex `mutex_id` on behalf of the running task `tid`, which
    /// must hold it (blocking variant). Returns the woken task, if any: the
    /// longest-blocked waiter, to be handed to the scheduler.
    pub fn mutex_unlock(&mut self, tid: usize, mutex_id: usize) -> (woken: Option<usize>)
        requires
            old(self).wf(),
            old(self).live(tid as int),
            old(self).task_of(tid as int).task_status is Running,
            mutex_id < old(self).mutex_list@.len(),
            old(self).mutex_list@[mutex_id as int] is Some,
            (match old(self).mutex_list@[mutex_id as int]->0 {
                MutexKind::Blocking(b) => b.inner.locked
                    && old(self).task_of(tid as int).allocated@[mutex_id as int] >= 1,
                MutexKind::Spin(_) => true,
            }),
        ensures
            final(self).wf(),
            final(self).tasks@.len() == old(self).tasks@.len(),
            forall|j: int| 0 <= j < old(self).tasks@.len() && j != tid
                && (woken is Some ==> j != woken->0)
                ==> final(self).tasks@[j] == old(self).tasks@[j],
            final(self).live(tid as int),
            final(self).mutex_list@.len() == old(self).mutex_list@.len(),
            forall|m2: int| 0 <= m2 < old(self).mutex_list@.len() && m2 != mutex_id
                ==> final(self).mutex_list@[m2] == old(self).mutex_list@[m2],
            final(self).mutex_list@[mutex_id as int] is Some,
            final(self).semaphore_list@ == old(self).semaphore_list@,
            final(self).condvar_list@ == old(self).condvar_list@,
            final(self).available_sem@ == old(self).available_sem@,
            final(self).fd_table == old(self).fd_table,
            final(self).children == old(self).children,
            final(self).parent == old(self).parent,
            final(self).memory_set == old(self).memory_set,
            final(self).deadlock_flag == old(self).deadlock_flag,
            final(self).task_res_allocator == old(self).task_res_allocator,
            final(self).is_zombie == old(self).is_zombie,
            final(self).exit_code == old(self).exit_code,
            (match old(self).mutex_list@[mutex_id as int]->0 {
                MutexKind::Spin(_) => {
                    &&& woken is None
                    &&& final(self).tasks@ == old(self).tasks@
                    &&& final(self).available@ == old(self).available@
                    &&& (match final(self).mutex_list@[mutex_id as int]->0 {
                        MutexKind::Spin(sp2) => !sp2.locked,
                        MutexKind::Blocking(_) => false,
                    })
                },
                MutexKind::Blocking(b) => {
                    let t0 = old(self).task_of(tid as int);
                    let t1 = final(self).task_of(tid as int);
                    &&& t1.allocated@ == t0.allocated@.update(
                        mutex_id as int, (t0.allocated@[mutex_id as int] - 1) as usize)
                    &&& t1.task_status == t0.task_status
                    &&& (woken is Some <==> b.inner.wait_queue@.len() > 0)
                    &&& (woken is Some ==> {
                        let w = woken->0 as int;
                        &&& woken->0 == b.inner.wait_queue@[0]
                        &&& w != tid
                        &&& final(self).live(w)
                        &&& final(self).task_of(w).task_status is Ready
                        &&& final(self).task_of(w).allocated@
                            == old(self).task_of(w).allocated@.update(
                                mutex_id as int,
                                (old(self).task_of(w).allocated@[mutex_id as int] + 1) as usize)
                        &&& final(self).task_of(w).needed@
                            == old(self).task_of(w).needed@.update(
                                mutex_id as int,
                                (old(self).task_of(w).needed@[mutex_id as int] - 1) as usize)
                        &&& final(self).available@ == old(self).available@
                        &&& (match final(self).mutex_list@[mutex_id as int]->0 {
                            MutexKind::Spin(_) => false,
                            MutexKind::Blocking(b1) => b1.inner.locked
                                && b1.inner.wait_queue@ == b.inner.wait_queue@.subrange(
                                    1, b.inner.wait_queue@.len() as int),
                        })
                    })
                    &&& (woken is None ==> {
                        &&& final(self).available@
                            == old(self).available@.update(mutex_id as int, 1)
                        &&& (match final(self).mutex_list@[mutex_id as int]->0 {
                            MutexKind::Spin(_) => false,
                            MutexKind::Blocking(b1) => !b1.inner.locked
                                && b1.inner.wait_queue@.len() == 0,
                        })
                    })
                },
            }),
    {
        let ghost p0 = *old(self);
        let slot = self.mutex_list[mutex_id].take();
        let ghost p1 = *self;
        proof {
            assert(p1.base_wf()) by {
                assert forall|i: int| #[trigger] p1.live(i) implies p1.task_of(i).wf()
                    && p1.task_res_allocator.is_allocated(i) by {
                    assert(p0.live(i));
                }
            }
        }
        match slot {
            Some(MutexKind::Spin(mut sp)) => {
                sp.unlock();
                self.mutex_list[mutex_id] = Some(MutexKind::Spin(sp));
                proof {
                    let p3 = *self;
                    assert(p3.base_wf()) by {
                        assert forall|i: int| #[trigger] p3.live(i) implies p3.task_of(i).wf()
                            && p3.task_res_allocator.is_allocated(i) by {
                            assert(p0.live(i));
                        }
                    }
                    assert forall|m: int| 0 <= m < RES_LIMIT implies p3.mutex_slot_ok(m)
                        && p3.sem_slot_ok(m) && p3.cond_slot_ok(m) by {
                        assert(p0.mutex_slot_ok(m));
                        assert(p0.sem_slot_ok(m));
                        assert(p0.cond_slot_ok(m));
                    }
                }
                None
            }
            Some(MutexKind::Blocking(mut b)) => {
                proof {
                    assert(p0.mutex_slot_ok(mutex_id as int));
                    assert(p1.mutex_inv_blocking(b, mutex_id as int)) by {
                        assert(queue_wf(
                            p1.tasks@,
                            b.inner.wait_queue@,
                            BlockedOn::OnMutex(mutex_id),
                            mutex_id as int,
                            false,
                        ));
                    }
                }
                let woken = b.unlock(self, tid, mutex_id);
                let ghost p2 = *self;
                self.mutex_list[mutex_id] = Some(MutexKind::Blocking(b));
                proof {
                    let p3 = *self;
                    assert(p3.base_wf()) by {
                        assert forall|i: int| #[trigger] p3.live(i) implies p3.task_of(i).wf()
                            && p3.task_res_allocator.is_allocated(i) by {
                            assert(p2.live(i));
                        }
                    }
                    assert forall|m: int| 0 <= m < RES_LIMIT implies p3.mutex_slot_ok(m)
                        && p3.sem_slot_ok(m) && p3.cond_slot_ok(m) by {
                        if m == mutex_id as int {
                            assert(p2.mutex_inv_blocking(b, m));
                            assert(p3.mutex_slot_ok(m));
                        } else {
                            assert(p0.mutex_slot_ok(m));
                            assert(p1.mutex_slot_ok(m));
                            assert(p2.mutex_slot_ok(m));
                        }
                        assert(p0.sem_slot_ok(m));
                        assert(p1.sem_slot_ok(m));
                        assert(p2.sem_slot_ok(m));
                        assert(p0.cond_slot_ok(m));
                        assert(p1.cond_slot_ok(m));
                        assert(p2.cond_slot_ok(m));
                    }
                }
                woken
            }
            None => {
                proof {
                    assert(false);
                }
                None
            }
        }
    }

    /// One `down` on semaphore `sem_id` by the running task `tid`; see
    /// `Semaphore::down` for the step's meaning.
    pub fn semaphore_down(&mut self, tid: usize, sem_id: usize) -> (r: isize)
        requires
            old(self).wf(),
            old(self).live(tid as int),
            old(self).task_of(tid as int).task_status is Running,
            sem_id < old(self).semaphore_list@.len(),
            old(self).semaphore_list@[sem_id as int] is Some,
            old(self).task_of(tid as int).needed_sem@[sem_id as int] < usize::MAX,
            old(self).semaphore_list@[sem_id as int]->0.inner.count > isize::MIN,
        ensures
            final(self).wf(),
            final(self).tasks@.len() == old(self).tasks@.len(),
            forall|j: int| 0 <= j < old(self).tasks@.len() && j != tid
                ==> final(self).tasks@[j] == old(self).tasks@[j],
            final(self).live(tid as int),
            final(self).task_of(tid as int).sem_id == sem_id,
            final(self).semaphore_list@.len() == old(self).semaphore_list@.len(),
            forall|s2: int| 0 <= s2 < old(self).semaphore_list@.len() && s2 != sem_id
                ==> final(self).semaphore_list@[s2] == old(self).semaphore_list@[s2],
            final(self).semaphore_list@[sem_id as int] is Some,
            final(self).mutex_list@ == old(self).mutex_list@,
            final(self).condvar_list@ == old(self).condvar_list@,
            final(self).available@ == old(self).available@,
            final(self).fd_table == old(self).fd_table,
            final(self).children == old(self).children,
            final(self).parent == old(self).parent,
            final(self).memory_set == old(self).memory_set,
            final(self).deadlock_flag == old(self).deadlock_flag,
            final(self).task_res_allocator == old(self).task_res_allocator,
            final(self).is_zombie == old(self).is_zombie,
            final(self).exit_code == old(self).exit_code,
            r == 0 || r == BLOCKED || r == DEADLOCK_ERR,
            ({
                let s0 = old(self).semaphore_list@[sem_id as int]->0;
                let s1 = final(self).semaphore_list@[sem_id as int]->0;
                let t0 = old(self).task_of(tid as int);
                let t1 = final(self).task_of(tid as int);
                &&& s1.inner.count == s0.inner.count - 1
                &&& s1.inner.cap == s0.inner.cap
                &&& (r == 0 <==> s0.inner.count >= 1)
                &&& (r == 0 ==> t1.allocated_sem@ == t0.allocated_sem@.update(
                        sem_id as int, (t0.allocated_sem@[sem_id as int] + 1) as usize)
                    && t1.needed_sem@ == t0.needed_sem@
                    && t1.task_status is Running
                    && final(self).available_sem@ == old(self).available_sem@.update(
                        sem_id as int,
                        (old(self).available_sem@[sem_id as int] - 1) as usize)
                    && s1.inner.wait_queue@ == s0.inner.wait_queue@)
                &&& (s0.inner.count < 1 ==> t1.needed_sem@ == t0.needed_sem@.update(
                        sem_id as int, (t0.needed_sem@[sem_id as int] + 1) as usize)
                    && t1.allocated_sem@ == t0.allocated_sem@
                    && final(self).available_sem@ == old(self).available_sem@
                    && (r == DEADLOCK_ERR <==> (old(self).deadlock_flag
                        && !can_complete(final(self).tasks@, old(self).available_sem@, true)))
                    && (r == DEADLOCK_ERR ==> t1.task_status is Running
                        && s1.inner.wait_queue@ == s0.inner.wait_queue@)
                    && (r == BLOCKED ==> t1.task_status is Blocked
                        && s1.inner.wait_queue@ == s0.inner.wait_queue@.push(tid)))
                &&& (old(self).sem_accounting_exact(s0, sem_id as int)
                    ==> final(self).sem_accounting_exact(s1, sem_id as int))
            }),
    {
        let ghost p0 = *old(self);
        let slot = self.semaphore_list[sem_id].take();
        let ghost p1 = *self;
        proof {
            assert(p1.base_wf()) by {
                assert forall|i: int| #[trigger] p1.live(i) implies p1.task_of(i).wf()
                    && p1.task_res_allocator.is_allocated(i) by {
                    assert(p0.live(i));
                }
            }
            p0.lemma_wf_detect_pre();
            assert(p1.detect_pre(true)) by {
                assert forall|r2: int| 0 <= r2 < RES_LIMIT
                    implies p1.avail_of(true)[r2] + sum_allocated(p1.tasks@, r2, true)
                        <= usize::MAX by {
                    assert(p0.avail_of(true)[r2] + sum_allocated(p0.tasks@, r2, true)
                        <= usize::MAX);
                }
            }
        }
        let mut sem = slot.unwrap();
        proof {
            assert(p0.sem_slot_ok(sem_id as int));
            assert(p1.sem_inv(sem, sem_id as int)) by {
                assert(queue_wf(
                    p1.tasks@,
                    sem.inner.wait_queue@,
                    BlockedOn::OnSem(sem_id),
                    sem_id as int,
                    true,
                ));
            }
        }
        let r = sem.down(self, tid, sem_id);
        let ghost p2 = *self;
        self.semaphore_list[sem_id] = Some(sem);
        proof {
            let p3 = *self;
            assert(p3.base_wf()) by {
                assert forall|i: int| #[trigger] p3.live(i) implies p3.task_of(i).wf()
                    && p3.task_res_allocator.is_allocated(i) by {
                    assert(p2.live(i));
                }
            }
            assert forall|m: int| 0 <= m < RES_LIMIT implies p3.mutex_slot_ok(m)
                && p3.sem_slot_ok(m) && p3.cond_slot_ok(m) by {
                if m == sem_id as int {
                    assert(p2.sem_inv(sem, m));
                    assert(p3.sem_slot_ok(m));
                } else {
                    assert(p0.sem_slot_ok(m));
                    assert(p1.sem_slot_ok(m));
                    assert(p2.sem_slot_ok(m));
                }
                assert(p0.mutex_slot_ok(m));
                assert(p1.mutex_slot_ok(m));
                assert(p2.mutex_slot_ok(m));
                assert(p0.cond_slot_ok(m));
                assert(p1.cond_slot_ok(m));
                assert(p2.cond_slot_ok(m));
            }
        }
        r
    }

    /// One `up` on semaphore `sem_id` by the running task `tid`; see
    /// `Semaphore::up` for the step's meaning. Returns the woken task, if
    /// any: the longest-blocked waiter.
    pub fn semaphore_up(&mut self, tid: usize, sem_id: usize) -> (woken: Option<usize>)
        requires
            old(self).wf(),
            old(self).live(tid as int),
            old(self).task_of(tid as int).task_status is Running,
            sem_id < old(self).semaphore_list@.len(),
            old(self).semaphore_list@[sem_id as int] is Some,
            old(self).task_of(tid as int).allocated_sem@[sem_id as int] >= 1,
        ensures
            final(self).wf(),
            final(self).tasks@.len() == old(self).tasks@.len(),
            forall|j: int| 0 <= j < old(self).tasks@.len() && j != tid
                && (woken is Some ==> j != woken->0)
                ==> final(self).tasks@[j] == old(self).tasks@[j],
            final(self).live(tid as int),
            final(self).semaphore_list@.len() == old(self).semaphore_list@.len(),
            forall|s2: int| 0 <= s2 < old(self).semaphore_list@.len() && s2 != sem_id
                ==> final(self).semaphore_list@[s2] == old(self).semaphore_list@[s2],
            final(self).semaphore_list@[sem_id as int] is Some,
            final(self).mutex_list@ == old(self).mutex_list@,
            final(self).condvar_list@ == old(self).condvar_list@,
            final(self).available@ == old(self).available@,
            final(self).fd_table == old(self).fd_table,
            final(self).children == old(self).children,
            final(self).parent == old(self).parent,
            final(self).memory_set == old(self).memory_set,
            final(self).deadlock_flag == old(self).deadlock_flag,
            final(self).task_res_allocator == old(self).task_res_allocator,
            final(self).is_zombie == old(self).is_zombie,
            final(self).exit_code == old(self).exit_code,
            ({
                let s0 = old(self).semaphore_list@[sem_id as int]->0;
                let s1 = final(self).semaphore_list@[sem_id as int]->0;
                let t0 = old(self).task_of(tid as int);
                let t1 = final(self).task_of(tid as int);
                &&& s1.inner.count == s0.inner.count + 1
                &&& s1.inner.cap == s0.inner.cap
                &&& t1.allocated_sem@ == t0.allocated_sem@.update(
                    sem_id as int, (t0.allocated_sem@[sem_id as int] - 1) as usize)
                &&& t1.task_status == t0.task_status
                &&& (woken is Some <==> (s0.inner.count + 1 <= 0
                    && s0.inner.wait_queue@.len() > 0))
                &&& (woken is Some ==> {
                    let w = woken->0 as int;
                    &&& woken->0 == s0.inner.wait_queue@[0]
                    &&& w != tid
                    &&& final(self).live(w)
                    &&& final(self).task_of(w).task_status is Ready
                    &&& final(self).task_of(w).allocated_sem@
                        == old(self).task_of(w).allocated_sem@.update(
                            sem_id as int,
                            (old(self).task_of(w).allocated_sem@[sem_id as int] + 1) as usize)
                    &&& final(self).task_of(w).needed_sem@
                        == old(self).task_of(w).needed_sem@.update(
                            sem_id as int,
                            (old(self).task_of(w).needed_sem@[sem_id as int] - 1) as usize)
                    &&& final(self).available_sem@ == old(self).available_sem@
                    &&& s1.inner.wait_queue@ == s0.inner.wait_queue@.subrange(
                        1, s0.inner.wait_queue@.len() as int)
                })
                &&& ((woken is None && s0.inner.count + 1 <= 0) ==> {
                    &&& final(self).available_sem@ == old(self).available_sem@
                    &&& s1.inner.wait_queue@ == s0.inner.wait_queue@
                })
                &&& (s0.inner.count + 1 > 0 ==> {
                    &&& woken is None
                    &&& final(self).available_sem@ == old(self).available_sem@.update(
                        sem_id as int,
                        (old(self).available_sem@[sem_id as int] + 1) as usize)
                    &&& s1.inner.wait_queue@ == s0.inner.wait_queue@
                })
                &&& ((old(self).sem_accounting_exact(s0, sem_id as int)
                    && (s0.inner.count + 1 <= 0 ==> s0.inner.wait_queue@.len() > 0))
                    ==> final(self).sem_accounting_exact(s1, sem_id as int))
            }),
    {
        let ghost p0 = *old(self);
        let slot = self.semaphore_list[sem_id].take();
        let ghost p1 = *self;
        proof {
            assert(p1.base_wf()) by {
                assert forall|i: int| #[trigger] p1.live(i) implies p1.task_of(i).wf()
                    && p1.task_res_allocator.is_allocated(i) by {
                    assert(p0.live(i));
                }
            }
        }
        let mut sem = slot.unwrap();
        proof {
            assert(p0.sem_slot_ok(sem_id as int));
            assert(p1.sem_inv(sem, sem_id as int)) by {
                assert(queue_wf(
                    p1.tasks@,
                    sem.inner.wait_queue@,
                    BlockedOn::OnSem(sem_id),
                    sem_id as int,
                    true,
                ));
            }
        }
        let woken = sem.up(self, tid, sem_id);
        let ghost p2 = *self;
        self.semaphore_list[sem_id] = Some(sem);
        proof {
            let p3 = *self;
            assert(p3.base_wf()) by {
                assert forall|i: int| #[trigger] p3.live(i) implies p3.task_of(i).wf()
                    && p3.task_res_allocator.is_allocated(i) by {
                    assert(p2.live(i));
                }
            }
            assert forall|m: int| 0 <= m < RES_LIMIT implies p3.mutex_slot_ok(m)
                && p3.sem_slot_ok(m) && p3.cond_slot_ok(m) by {
                if m == sem_id as int {
                    assert(p2.sem_inv(sem, m));
                    assert(p3.sem_slot_ok(m));
                } else {
                    assert(p0.sem_slot_ok(m));
                    assert(p1.sem_slot_ok(m));
                    assert(p2.sem_slot_ok(m));
                }
                assert(p0.mutex_slot_ok(m));
                assert(p1.mutex_slot_ok(m));
                assert(p2.mutex_slot_ok(m));
                assert(p0.cond_slot_ok(m));
                assert(p1.cond_slot_ok(m));
                assert(p2.cond_slot_ok(m));
            }
        }
        woken
    }
}


/// Resource accounting: for a created blocking mutex, the free unit plus
/// the units held across all tasks equals the capacity of one at every
/// quiescent point (the invariant holds whenever no operation is mid-step).
pub proof fn lemma_mutex_accounting(p: ProcessControlBlockInner, id: int)
    requires
        p.wf(),
        0 <= id < RES_LIMIT,
        0 <= id < p.mutex_list@.len(),
        p.mutex_list@[id] matches Some(MutexKind::Blocking(_)),
    ensures
        p.available@[id] + sum_allocated(p.tasks@, id, false) == 1,
{
    assert(p.mutex_slot_ok(id));
}

/// Mutual exclusion: at most one task holds a given mutex at a time. In a
/// well-formed process, when a live task holds a unit of mutex slot `id`,
/// every other live task holds none.
pub proof fn lemma_mutex_exclusion(
    p: ProcessControlBlockInner,
    id: int,
    i: int,
    j: int,
)
    requires
        p.wf(),
        0 <= id < RES_LIMIT,
        p.live(i),
        p.live(j),
        i != j,
        p.task_of(i).allocated@[id] >= 1,
    ensures
        p.task_of(j).allocated@[id] == 0,
{
    assert(p.mutex_slot_ok(id));
    lemma_sum_pair(p.tasks@, i, j, id, false);
    assert(slot_allocated(p.tasks@[i], id, false) >= 1);
}

impl ProcessControlBlock {
    /// Creates a process around a loaded image: empty sync tables, zeroed
    /// accounting, the three standard descriptors (with error output sharing
    /// the same underlying file as standard output), and one initial ready
    /// task with thread id 0.
    pub fn new(pid: usize, image: Image, start_time: usize) -> (p: ProcessControlBlock)
        ensures
            p.pid == pid,
            p.inner.wf(),
            !p.inner.is_zombie,
            p.inner.parent is None,
            p.inner.children@.len() == 0,
            p.inner.exit_code == 0,
            p.inner.memory_set.token == image.token,
            p.inner.memory_set.wf(),
            p.inner.fd_table@ == seq![Some(0usize), Some(1usize), Some(1usize)],
            p.inner.tasks@.len() == 1,
            p.inner.live(0),
            p.inner.task_of(0).task_status is Ready,
            !p.inner.deadlock_flag,
            p.inner.mutex_list@.len() == 0,
            p.inner.semaphore_list@.len() == 0,
            p.inner.condvar_list@.len() == 0,
            forall|r: int| 0 <= r < RES_LIMIT ==> #[trigger] p.inner.available@[r] == 0,
            forall|r: int| 0 <= r < RES_LIMIT ==> #[trigger] p.inner.available_sem@[r] == 0,
            forall|r: int| 0 <= r < RES_LIMIT
                ==> #[trigger] p.inner.task_of(0).allocated@[r] == 0
                    && p.inner.task_of(0).allocated_sem@[r] == 0
                    && p.inner.task_of(0).needed@[r] == 0
                    && p.inner.task_of(0).needed_sem@[r] == 0,
    {
        let mut fd_table: Vec<Option<usize>> = Vec::new();
        fd_table.push(Some(0));
        fd_table.push(Some(1));
        fd_table.push(Some(1));
        proof {
            assert(fd_table@ =~= seq![Some(0usize), Some(1usize), Some(1usize)]);
        }
        let mut inner = ProcessControlBlockInner {
            is_zombie: false,
            memory_set: MemorySet::new(image.token, image.ustack_base),
            parent: None,
            children: Vec::new(),
            exit_code: 0,
            fd_table,
            signals: SignalFlags::empty(),
            tasks: Vec::new(),
            task_res_allocator: RecycleAllocator::new(),
            mutex_list: Vec::new(),
            semaphore_list: Vec::new(),
            condvar_list: Vec::new(),
            deadlock_flag: false,
            available: crate::task::zero_vec(RES_LIMIT),
            available_sem: crate::task::zero_vec(RES_LIMIT),
        };
        proof {
            assert forall|r: int| 0 <= r < RES_LIMIT implies inner.mutex_slot_ok(r)
                && inner.sem_slot_ok(r) && inner.cond_slot_ok(r) by {
                assert(sum_allocated(inner.tasks@, r, false) == 0);
                assert(sum_allocated(inner.tasks@, r, true) == 0);
            }
            assert(inner.wf());
        }
        let ghost fresh = inner;
        let tid = inner.create_task(start_time);
        proof {
            assert(tid == 0) by {
                if tid > 0 {
                    assert(fresh.task_res_allocator.is_allocated(0));
                }
            }
        }
        ProcessControlBlock { pid, inner }
    }

    /// Forks this single-threaded process: the child gets the given fresh
    /// pid, a duplicated descriptor table sharing the underlying files, a
    /// back-reference to this process, zeroed resource accounting, empty
    /// sync tables and one initial ready task.
    pub fn fork(&self, new_pid: usize, new_token: usize, start_time: usize) -> (child: ProcessControlBlock)
        requires
            self.inner.wf(),
            self.inner.tasks@.len() == 1,
            self.inner.memory_set.wf(),
        ensures
            child.pid == new_pid,
            child.inner.wf(),
            !child.inner.is_zombie,
            child.inner.parent == Some(self.pid),
            child.inner.children@.len() == 0,
            child.inner.exit_code == 0,
            child.inner.fd_table@ == self.inner.fd_table@,
            child.inner.memory_set.token == new_token,
            child.inner.memory_set.wf(),
            child.inner.tasks@.len() == 1,
            child.inner.live(0),
            child.inner.task_of(0).task_status is Ready,
            !child.inner.deadlock_flag,
            child.inner.mutex_list@.len() == 0,
            child.inner.semaphore_list@.len() == 0,
            child.inner.condvar_list@.len() == 0,
            forall|r: int| 0 <= r < RES_LIMIT ==> #[trigger] child.inner.available@[r] == 0,
            forall|r: int| 0 <= r < RES_LIMIT
                ==> #[trigger] child.inner.available_sem@[r] == 0,
            forall|r: int| 0 <= r < RES_LIMIT
                ==> #[trigger] child.inner.task_of(0).allocated@[r] == 0
                    && child.inner.task_of(0).allocated_sem@[r] == 0
                    && child.inner.task_of(0).needed@[r] == 0
                    && child.inner.task_of(0).needed_sem@[r] == 0,
    {
        let mut new_fd_table: Vec<Option<usize>> = Vec::new();
        let mut fd: usize = 0;
        while fd < self.inner.fd_table.len()
            invariant
                fd == new_fd_table@.len(),
                fd <= self.inner.fd_table@.len(),
                forall|k: int| 0 <= k < fd
                    ==> new_fd_table@[k] == self.inner.fd_table@[k],
            decreases self.inner.fd_table@.len() - fd,
        {
            match self.inner.fd_table[fd] {
                Some(file) => new_fd_table.push(Some(file)),
                None => new_fd_table.push(None),
            }
            fd = fd + 1;
        }
        proof {
            assert(new_fd_table@ =~= self.inner.fd_table@);
        }
        let mut inner = ProcessControlBlockInner {
            is_zombie: false,
            memory_set: MemorySet::new(new_token, self.inner.memory_set.heap_bottom),
            parent: Some(self.pid),
            children: Vec::new(),
            exit_code: 0,
            fd_table: new_fd_table,
            signals: SignalFlags::empty(),
            tasks: Vec::new(),
            task_res_allocator: RecycleAllocator::new(),
            mutex_list: Vec::new(),
            semaphore_list: Vec::new(),
            condvar_list: Vec::new(),
            deadlock_flag: false,
            available: crate::task::zero_vec(RES_LIMIT),
            available_sem: crate::task::zero_vec(RES_LIMIT),
        };
        proof {
            assert forall|r: int| 0 <= r < RES_LIMIT implies inner.mutex_slot_ok(r)
                && inner.sem_slot_ok(r) && inner.cond_slot_ok(r) by {
                assert(sum_allocated(inner.tasks@, r, false) == 0);
                assert(sum_allocated(inner.tasks@, r, true) == 0);
            }
            assert(inner.wf());
        }
        let ghost fresh = inner;
        let tid = inner.create_task(start_time);
        proof {
            assert(tid == 0) by {
                if tid > 0 {
                    assert(fresh.task_res_allocator.is_allocated(0));
                }
            }
        }
        ProcessControlBlock { pid: new_pid, inner }
    }

    /// Replaces this process's program image. Only single-threaded processes
    /// may do this; the pid, descriptor table and all other process state
    /// are preserved, while the address space is the fresh one from the
    /// image. Rebuilding the initial thread's stack and trap context belongs
    /// to the excluded subsystems.
    pub fn exec(&mut self, image: Image)
        requires
            old(self).inner.wf(),
            old(self).inner.tasks@.len() == 1,
        ensures
            final(self).inner.wf(),
            final(self).pid == old(self).pid,
            final(self).inner.memory_set.token == image.token,
            final(self).inner.memory_set.wf(),
            *final(self) == (ProcessControlBlock {
                inner: ProcessControlBlockInner {
                    memory_set: final(self).inner.memory_set,
                    ..old(self).inner
                },
                ..*old(self)
            }),
    {
        self.inner.memory_set = MemorySet::new(image.token, image.ustack_base);
        proof {
            let p0 = old(self).inner;
            let p2 = self.inner;
            assert forall|i: int| #[trigger] p2.live(i) implies p2.task_of(i).wf()
                && p2.task_res_allocator.is_allocated(i) by {
                assert(p0.live(i));
            }
            assert(p2.base_wf());
            assert forall|r: int| 0 <= r < RES_LIMIT implies p2.mutex_slot_ok(r)
                && p2.sem_slot_ok(r) && p2.cond_slot_ok(r) by {
                assert(p0.mutex_slot_ok(r));
                assert(p0.sem_slot_ok(r));
                assert(p0.cond_slot_ok(r));
            }
        }
    }

    /// This process's pid.
    pub fn getpid(&self) -> (pid: usize)
        ensures
            pid == self.pid,
    {
        self.pid
    }

    /// Turns deadlock detection on or off.
    pub fn set_deadlock_flag(&mut self, flag: bool)
        ensures
            *final(self) == (ProcessControlBlock {
                inner: ProcessControlBlockInner { deadlock_flag: flag, ..old(self).inner },
                ..*old(self)
            }),
    {
        self.inner.set_deadlock_flag(flag);
    }

    /// Read access to the process state. Mutation goes through the
    /// operations on this type, which uphold the process invariant.
    pub fn inner_exclusive_access(&self) -> (inner: &ProcessControlBlockInner)
        ensures
            *inner == self.inner,
    {
        &self.inner
    }
}


/// Fields outside the task table, sync tables and accounting do not affect
/// the process invariant.
pub proof fn lemma_wf_unchanged_core(p1: ProcessControlBlockInner, p2: ProcessControlBlockInner)
    requires
        p1.wf(),
        p2.tasks@ == p1.tasks@,
        p2.mutex_list@ == p1.mutex_list@,
        p2.semaphore_list@ == p1.semaphore_list@,
        p2.condvar_list@ == p1.condvar_list@,
        p2.available@ == p1.available@,
        p2.available_sem@ == p1.available_sem@,
        p2.task_res_allocator == p1.task_res_allocator,
    ensures
        p2.wf(),
{
    assert forall|i: int| #[trigger] p2.live(i) implies p2.task_of(i).wf()
        && p2.task_res_allocator.is_allocated(i) by {
        assert(p1.live(i));
    }
    assert(p2.base_wf());
    assert forall|r: int| 0 <= r < RES_LIMIT implies p2.mutex_slot_ok(r)
        && p2.sem_slot_ok(r) && p2.cond_slot_ok(r) by {
        assert(p1.mutex_slot_ok(r));
        assert(p1.sem_slot_ok(r));
        assert(p1.cond_slot_ok(r));
    }
}

impl ProcessControlBlockInner {
    /// Marks a running task ready (it yielded the processor).
    pub fn set_task_ready(&mut self, tid: usize)
        requires
            old(self).wf(),
            old(self).live(tid as int),
            old(self).task_of(tid as int).task_status is Running,
        ensures
            final(self).wf(),
            final(self).tasks@ == old(self).tasks@.update(
                tid as int, final(self).tasks@[tid as int]),
            final(self).live(tid as int),
            final(self).task_of(tid as int) == (TaskControlBlock {
                task_status: TaskStatus::Ready,
                ..old(self).task_of(tid as int)
            }),
            *final(self) == (ProcessControlBlockInner { tasks: final(self).tasks, ..*old(self) }),
    {
        let mut t = self.tasks[tid].take().unwrap();
        t.task_status = TaskStatus::Ready;
        self.tasks[tid] = Some(t);
        proof {
            assert(old(self).task_of(tid as int).wf());
            self.lemma_status_change_wf(*old(self), tid as int);
        }
    }

    /// Marks a ready task running (the scheduler picked it).
    pub fn set_task_running(&mut self, tid: usize)
        requires
            old(self).wf(),
            old(self).live(tid as int),
            old(self).task_of(tid as int).task_status is Ready,
        ensures
            final(self).wf(),
            final(self).tasks@ == old(self).tasks@.update(
                tid as int, final(self).tasks@[tid as int]),
            final(self).live(tid as int),
            final(self).task_of(tid as int) == (TaskControlBlock {
                task_status: TaskStatus::Running,
                ..old(self).task_of(tid as int)
            }),
            *final(self) == (ProcessControlBlockInner { tasks: final(self).tasks, ..*old(self) }),
    {
        let mut t = self.tasks[tid].take().unwrap();
        t.task_status = TaskStatus::Running;
        self.tasks[tid] = Some(t);
        proof {
            assert(old(self).task_of(tid as int).wf());
            self.lemma_status_change_wf(*old(self), tid as int);
        }
    }

    /// Marks the running task a zombie and records the exit code on the
    /// task and the process.
    pub fn task_exit(&mut self, tid: usize, exit_code: i32)
        requires
            old(self).wf(),
            old(self).live(tid as int),
            old(self).task_of(tid as int).task_status is Running,
        ensures
            final(self).wf(),
            final(self).tasks@ == old(self).tasks@.update(
                tid as int, final(self).tasks@[tid as int]),
            final(self).live(tid as int),
            final(self).task_of(tid as int) == (TaskControlBlock {
                task_status: TaskStatus::Zombie,
                exit_code: exit_code,
                ..old(self).task_of(tid as int)
            }),
            *final(self) == (ProcessControlBlockInner {
                tasks: final(self).tasks,
                is_zombie: true,
                exit_code: exit_code,
                ..*old(self)
            }),
    {
        let mut t = self.tasks[tid].take().unwrap();
        t.task_status = TaskStatus::Zombie;
        t.exit_code = exit_code;
        self.tasks[tid] = Some(t);
        self.is_zombie = true;
        self.exit_code = exit_code;
        proof {
            assert(old(self).task_of(tid as int).wf());
            self.lemma_status_change_wf(*old(self), tid as int);
        }
    }

    /// Counts one invocation of `syscall_id` against the running task.
    pub fn bump_run_time(&mut self, tid: usize, syscall_id: usize)
        requires
            old(self).wf(),
            old(self).live(tid as int),
            old(self).task_of(tid as int).task_status is Running,
            syscall_id < MAX_SYSCALL_NUM,
            old(self).task_of(tid as int).run_time@[syscall_id as int] < u32::MAX,
        ensures
            final(self).wf(),
            final(self).tasks@ == old(self).tasks@.update(
                tid as int, final(self).tasks@[tid as int]),
            final(self).live(tid as int),
            final(self).task_of(tid as int) == (TaskControlBlock {
                run_time: final(self).task_of(tid as int).run_time,
                ..old(self).task_of(tid as int)
            }),
            final(self).task_of(tid as int).run_time@
                == old(self).task_of(tid as int).run_time@.update(
                    syscall_id as int,
                    (old(self).task_of(tid as int).run_time@[syscall_id as int] + 1) as u32),
            *final(self) == (ProcessControlBlockInner { tasks: final(self).tasks, ..*old(self) }),
    {
        let mut t = self.tasks[tid].take().unwrap();
        t.run_time[syscall_id] = t.run_time[syscall_id] + 1;
        self.tasks[tid] = Some(t);
        proof {
            assert(old(self).task_of(tid as int).wf());
            self.lemma_status_change_wf(*old(self), tid as int);
        }
    }

    /// An update of one task that leaves its accounting vectors, its
    /// blocked-on marker and its queue-relevant shape intact preserves the
    /// process invariant.
    proof fn lemma_status_change_wf(&self, p0: ProcessControlBlockInner, tid: int)
        requires
            p0.wf(),
            p0.live(tid),
            self.tasks@.len() == p0.tasks@.len(),
            forall|j: int| 0 <= j < p0.tasks@.len() && j != tid
                ==> self.tasks@[j] == p0.tasks@[j],
            self.live(tid),
            self.task_of(tid).wf(),
            self.task_of(tid).allocated@ == p0.task_of(tid).allocated@,
            self.task_of(tid).needed@ == p0.task_of(tid).needed@,
            self.task_of(tid).allocated_sem@ == p0.task_of(tid).allocated_sem@,
            self.task_of(tid).needed_sem@ == p0.task_of(tid).needed_sem@,
            self.task_of(tid).blocked_on@ is Nothing,
            p0.task_of(tid).blocked_on@ is Nothing,
            self.mutex_list@ == p0.mutex_list@,
            self.semaphore_list@ == p0.semaphore_list@,
            self.condvar_list@ == p0.condvar_list@,
            self.available@ == p0.available@,
            self.available_sem@ == p0.available_sem@,
            self.task_res_allocator == p0.task_res_allocator,
        ensures
            self.wf(),
    {
        lemma_slots_preserved_task_update(p0, *self, tid, -1, -1);
        lemma_base_wf_task_update(p0, *self, tid);
        assert forall|r: int| 0 <= r < RES_LIMIT implies self.mutex_slot_ok(r)
            && self.sem_slot_ok(r) && self.cond_slot_ok(r) by {
            assert(p0.mutex_slot_ok(r));
            assert(p0.sem_slot_ok(r));
            assert(p0.cond_slot_ok(r));
            assert(self.tasks@ =~= p0.tasks@.update(tid, self.tasks@[tid]));
            lemma_sum_update(p0.tasks@, tid, self.tasks@[tid], r, false);
            lemma_sum_update(p0.tasks@, tid, self.tasks@[tid], r, true);
        }
    }

    /// Points this process's parent back-reference at `parent`.
    pub fn set_parent(&mut self, parent: Option<usize>)
        requires
            old(self).wf(),
        ensures
            final(self).wf(),
            *final(self) == (ProcessControlBlockInner { parent: parent, ..*old(self) }),
    {
        self.parent = parent;
        proof {
            lemma_wf_unchanged_core(*old(self), *self);
        }
    }

    /// Records a new child pid.
    pub fn push_child(&mut self, child: usize)
        requires
            old(self).wf(),
        ensures
            final(self).wf(),
            final(self).children@ == old(self).children@.push(child),
            *final(self) == (ProcessControlBlockInner {
                children: final(self).children, ..*old(self)
            }),
    {
        self.children.push(child);
        proof {
            lemma_wf_unchanged_core(*old(self), *self);
        }
    }

    /// Removes and returns the whole child list (used when exiting, before
    /// the children are reparented).
    pub fn take_children(&mut self) -> (kids: Vec<usize>)
        requires
            old(self).wf(),
        ensures
            final(self).wf(),
            kids@ == old(self).children@,
            final(self).children@.len() == 0,
            *final(self) == (ProcessControlBlockInner {
                children: final(self).children, ..*old(self)
            }),
    {
        let mut kids: Vec<usize> = Vec::new();
        let mut k: usize = 0;
        while k < self.children.len()
            invariant
                *self == *old(self),
                k == kids@.len(),
                k <= self.children@.len(),
                forall|j: int| 0 <= j < k ==> kids@[j] == self.children@[j],
            decreases self.children@.len() - k,
        {
            kids.push(self.children[k]);
            k = k + 1;
        }
        self.children.clear();
        proof {
            assert(kids@ =~= old(self).children@);
            lemma_wf_unchanged_core(*old(self), *self);
        }
        kids
    }
}

} // verus!
