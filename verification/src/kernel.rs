//! Kernel state: the process table, the FIFO ready queue, the processor's
//! current-task slot, and the lifecycle transitions — spawn, fork, yield,
//! block, wake and exit with reparenting.

use vstd::prelude::*;
use crate::{BLOCKED, DEADLOCK_ERR, INIT_PID, MAX_SYSCALL_NUM, RES_LIMIT};
use crate::deadlock::can_complete;
use crate::id::RecycleAllocator;
use crate::process::{lemma_wf_unchanged_core, Image, ProcessControlBlock, ProcessControlBlockInner};
use crate::task::{TaskControlBlock, TaskStatus};
use std::collections::VecDeque;

verus! {

/// A reference to one task: process id and thread id.
#[derive(Clone, Copy, PartialEq, Eq, Structural, Debug)]
pub struct TaskRef {
    pub pid: usize,
    pub tid: usize,
}

/// FIFO queue of runnable tasks. No priority, no aging.
pub struct TaskManager {
    pub ready_queue: VecDeque<TaskRef>,
}

impl TaskManager {
    pub fn new() -> (m: TaskManager)
        ensures
            m.ready_queue@.len() == 0,
    {
        TaskManager { ready_queue: VecDeque::new() }
    }

    /// Appends a runnable task at the back.
    pub fn add(&mut self, task: TaskRef)
        ensures
            final(self).ready_queue@ == old(self).ready_queue@.push(task),
    {
        self.ready_queue.push_back(task);
    }

    /// Removes and returns the task that has waited longest.
    pub fn fetch(&mut self) -> (task: Option<TaskRef>)
        ensures
            (task is Some <==> old(self).ready_queue@.len() > 0),
            (task is Some ==> task->0 == old(self).ready_queue@[0]
                && final(self).ready_queue@ == old(self).ready_queue@.subrange(
                    1, old(self).ready_queue@.len() as int)),
            (task is None ==> final(self).ready_queue@ == old(self).ready_queue@),
    {
        self.ready_queue.pop_front()
    }
}

/// The single processor: at most one task runs at a time.
pub struct Processor {
    pub current: Option<TaskRef>,
}

/// The whole kernel: process arena indexed by pid, pid allocator, ready
/// queue and processor.
pub struct Kernel {
    pub processes: Vec<Option<ProcessControlBlock>>,
    pub pid_allocator: RecycleAllocator,
    pub task_manager: TaskManager,
    pub processor: Processor,
}

impl Kernel {
    /// Process slot `pid` holds a process.
    pub open spec fn proc_live(self, pid: int) -> bool {
        0 <= pid < self.processes@.len() && self.processes@[pid] is Some
    }

    /// The process in slot `pid`.
    pub open spec fn proc_of(self, pid: int) -> ProcessControlBlock {
        self.processes@[pid]->0
    }

    /// Task `r` exists.
    pub open spec fn task_live(self, r: TaskRef) -> bool {
        self.proc_live(r.pid as int) && self.proc_of(r.pid as int).inner.live(r.tid as int)
    }

    /// Status of task `r`.
    pub open spec fn status_of(self, r: TaskRef) -> TaskStatus {
        self.proc_of(r.pid as int).inner.task_of(r.tid as int).task_status
    }

    /// Kernel invariant: live processes are well formed and registered under
    /// their own pid; parent/child links point at live processes, each child
    /// is listed once by the process its back-reference names, and the
    /// initial process has no parent; ready-queue entries are distinct ready
    /// tasks; the current task, when there is one, is running.
    pub open spec fn wf(self) -> bool {
        &&& self.pid_allocator.wf()
        &&& forall|p: int| #[trigger] self.proc_live(p) ==> {
            &&& self.proc_of(p).inner.wf()
            &&& self.proc_of(p).pid == p
            &&& self.pid_allocator.is_allocated(p)
            &&& self.proc_of(p).inner.memory_set.wf()
        }
        &&& forall|p: int, k: int|
            self.proc_live(p) && 0 <= k < self.proc_of(p).inner.children@.len() ==> {
                let c = (#[trigger] self.proc_of(p).inner.children@[k]) as int;
                &&& self.proc_live(c)
                &&& self.proc_of(c).inner.parent == Some(p as usize)
            }
        &&& forall|p: int, k1: int, k2: int|
            self.proc_live(p) && 0 <= k1 < k2 < self.proc_of(p).inner.children@.len()
                ==> self.proc_of(p).inner.children@[k1] != self.proc_of(p).inner.children@[k2]
        &&& forall|p: int| #[trigger] self.proc_live(p)
            && self.proc_of(p).inner.parent is Some ==> {
                let q = self.proc_of(p).inner.parent->0 as int;
                &&& self.proc_live(q)
                &&& q != p
            }
        &&& (self.proc_live(INIT_PID as int) ==> self.proc_of(INIT_PID as int).inner.parent is None)
        &&& forall|k: int| 0 <= k < self.task_manager.ready_queue@.len() ==> {
            let r = #[trigger] self.task_manager.ready_queue@[k];
            &&& self.task_live(r)
            &&& self.status_of(r) is Ready
        }
        &&& forall|k1: int, k2: int|
            0 <= k1 < k2 < self.task_manager.ready_queue@.len()
                ==> self.task_manager.ready_queue@[k1] != self.task_manager.ready_queue@[k2]
        &&& (self.processor.current matches Some(r) ==> {
            &&& self.task_live(r)
            &&& self.status_of(r) is Running
        })
    }

    /// An empty kernel: no processes, nothing to run.
    pub fn new() -> (k: Kernel)
        ensures
            k.wf(),
            k.processes@.len() == 0,
            k.pid_allocator.current == 0,
            k.task_manager.ready_queue@.len() == 0,
            k.processor.current is None,
    {
        Kernel {
            processes: Vec::new(),
            pid_allocator: RecycleAllocator::new(),
            task_manager: TaskManager::new(),
            processor: Processor { current: None },
        }
    }

    /// Allocates a fresh pid and grows the arena so the pid indexes an empty
    /// slot.
    fn alloc_pid_slot(&mut self) -> (pid: usize)
        requires
            old(self).wf(),
            old(self).pid_allocator.current < usize::MAX,
            old(self).processes@.len() < usize::MAX,
        ensures
            final(self).wf(),
            final(self).pid_allocator.is_allocated(pid as int),
            !old(self).pid_allocator.is_allocated(pid as int),
            forall|j: int| 0 <= j < pid ==> old(self).pid_allocator.is_allocated(j),
            pid < final(self).processes@.len(),
            final(self).processes@.len() >= old(self).processes@.len(),
            final(self).processes@[pid as int] is None,
            forall|j: int| 0 <= j < old(self).processes@.len() && j != pid
                ==> final(self).processes@[j] == old(self).processes@[j],
            forall|j: int| old(self).processes@.len() <= j < final(self).processes@.len()
                ==> final(self).processes@[j] is None,
            forall|j: int| j != pid ==> final(self).pid_allocator.is_allocated(j)
                == old(self).pid_allocator.is_allocated(j),
            final(self).task_manager == old(self).task_manager,
            final(self).processor == old(self).processor,
    {
        let pid = self.pid_allocator.allocate();
        proof {
            if pid < self.processes@.len() && self.processes@[pid as int] is Some {
                assert(old(self).proc_live(pid as int));
                assert(false);
            }
        }
        if self.processes.len() <= pid {
            let ghost pre = *self;
            while self.processes.len() <= pid
                invariant
                    pre.processes@.len() <= self.processes@.len() <= pid + 1,
                    pid < usize::MAX,
                    forall|j: int| 0 <= j < pre.processes@.len()
                        ==> self.processes@[j] == pre.processes@[j],
                    forall|j: int| pre.processes@.len() <= j < self.processes@.len()
                        ==> self.processes@[j] is None,
                    *self == (Kernel { processes: self.processes, ..pre }),
                decreases pid + 1 - self.processes@.len(),
            {
                self.processes.push(None);
            }
        }
        proof {
            self.lemma_arena_extended(*old(self));
        }
        pid
    }

    /// Extending the arena with empty slots and allocating an unused pid
    /// keeps the kernel invariant.
    proof fn lemma_arena_extended(&self, k0: Kernel)
        requires
            k0.wf(),
            self.processes@.len() >= k0.processes@.len(),
            forall|j: int| 0 <= j < k0.processes@.len()
                ==> self.processes@[j] == k0.processes@[j],
            forall|j: int| k0.processes@.len() <= j < self.processes@.len()
                ==> self.processes@[j] is None,
            self.pid_allocator.wf(),
            forall|j: int| k0.pid_allocator.is_allocated(j)
                ==> self.pid_allocator.is_allocated(j),
            self.task_manager == k0.task_manager,
            self.processor == k0.processor,
        ensures
            self.wf(),
    {
        assert forall|p: int| #[trigger] self.proc_live(p) implies k0.proc_live(p)
            && self.proc_of(p) == k0.proc_of(p) by {
            if p >= k0.processes@.len() {
                assert(self.processes@[p] is None);
            }
        }
        assert forall|p: int, k: int|
            self.proc_live(p) && 0 <= k < self.proc_of(p).inner.children@.len() implies {
                let c = (#[trigger] self.proc_of(p).inner.children@[k]) as int;
                self.proc_live(c) && self.proc_of(c).inner.parent == Some(p as usize)
            } by {
            assert(k0.proc_live(p));
            let c = self.proc_of(p).inner.children@[k] as int;
            assert(k0.proc_live(c));
        }
        assert forall|p: int| #[trigger] self.proc_live(p)
            && self.proc_of(p).inner.parent is Some implies {
                let q = self.proc_of(p).inner.parent->0 as int;
                self.proc_live(q) && q != p
            } by {
            assert(k0.proc_live(p));
            let q = self.proc_of(p).inner.parent->0 as int;
            assert(k0.proc_live(q));
        }
        assert forall|k: int| 0 <= k < self.task_manager.ready_queue@.len() implies {
            let r = #[trigger] self.task_manager.ready_queue@[k];
            self.task_live(r) && self.status_of(r) is Ready
        } by {
            let r = self.task_manager.ready_queue@[k];
            assert(k0.task_live(r));
        }
        if self.processor.current is Some {
            let r = self.processor.current->0;
            assert(k0.task_live(r));
        }
    }

    /// Creates the initial process from its loaded image and queues its main
    /// thread. It receives pid 0, the fixed home for orphans.
    pub fn add_initproc(&mut self, image: Image, start_time: usize)
        requires
            old(self).wf(),
            old(self).processes@.len() == 0,
            old(self).pid_allocator.current == 0,
            old(self).pid_allocator.recycled@.len() == 0,
            old(self).task_manager.ready_queue@.len() == 0,
            old(self).processor.current is None,
        ensures
            final(self).wf(),
            final(self).proc_live(INIT_PID as int),
            final(self).proc_of(INIT_PID as int).inner.parent is None,
            final(self).task_manager.ready_queue@.len() == 1,
            final(self).task_manager.ready_queue@[0] == (TaskRef { pid: INIT_PID, tid: 0 }),
    {
        let pid = self.alloc_pid_slot();
        proof {
            assert(pid == 0) by {
                if pid > 0 {
                    assert(!old(self).pid_allocator.is_allocated(0));
                    assert(self.pid_allocator.is_allocated(pid as int));
                    assert(old(self).pid_allocator.recycled@.len() == 0);
                }
            }
        }
        let pcb = ProcessControlBlock::new(pid, image, start_time);
        let ghost k1 = *self;
        self.processes[pid] = Some(pcb);
        proof {
            self.lemma_one_proc_updated(k1, pid as int);
        }
        let ghost k2 = *self;
        self.task_manager.add(TaskRef { pid, tid: 0 });
        proof {
            self.lemma_enqueue_ready(k2, TaskRef { pid, tid: 0 });
        }
    }

    /// Updating one arena slot with a well-formed process whose links are
    /// consistent keeps the kernel invariant, provided no other process
    /// lists it as a child unless it already pointed there, and the queues
    /// still see the same task statuses.
    pub(crate) proof fn lemma_one_proc_updated(&self, k0: Kernel, pid: int)
        requires
            k0.wf(),
            self.processes@.len() == k0.processes@.len(),
            0 <= pid < k0.processes@.len(),
            forall|j: int| 0 <= j < k0.processes@.len() && j != pid
                ==> self.processes@[j] == k0.processes@[j],
            self.pid_allocator == k0.pid_allocator,
            self.task_manager == k0.task_manager,
            self.processor == k0.processor,
            (k0.proc_live(pid) ==> self.proc_live(pid)),
            self.proc_live(pid) ==> {
                &&& self.proc_of(pid).inner.wf()
                &&& self.proc_of(pid).pid == pid
                &&& self.pid_allocator.is_allocated(pid)
                &&& self.proc_of(pid).inner.memory_set.wf()
            },
            // Children listed by the updated process are live elsewhere and
            // point back at it.
            self.proc_live(pid) ==> forall|k: int|
                0 <= k < self.proc_of(pid).inner.children@.len() ==> {
                    let c = (#[trigger] self.proc_of(pid).inner.children@[k]) as int;
                    &&& c != pid
                    &&& k0.proc_live(c)
                    &&& k0.proc_of(c).inner.parent == Some(pid as usize)
                },
            self.proc_live(pid) ==> forall|k1: int, k2: int|
                0 <= k1 < k2 < self.proc_of(pid).inner.children@.len()
                    ==> self.proc_of(pid).inner.children@[k1]
                        != self.proc_of(pid).inner.children@[k2],
            // The updated process's own parent link must be consistent, and
            // whoever lists it as a child must still be named by that link.
            (self.proc_live(pid) ==> (match self.proc_of(pid).inner.parent {
                Some(q) => k0.proc_live(q as int) && q as int != pid,
                None => true,
            })),
            (self.proc_live(pid) ==> forall|p2: int, k: int| k0.proc_live(p2) && p2 != pid
                && 0 <= k < k0.proc_of(p2).inner.children@.len()
                && (#[trigger] k0.proc_of(p2).inner.children@[k]) as int == pid
                ==> self.proc_of(pid).inner.parent == Some(p2 as usize)),
            (pid == INIT_PID && self.proc_live(pid)
                ==> self.proc_of(pid).inner.parent is None),
            // Ready-queue entries and the current task that fall in the
            // updated process must still be seen with the right status.
            forall|k: int| 0 <= k < self.task_manager.ready_queue@.len()
                && (#[trigger] self.task_manager.ready_queue@[k]).pid as int == pid
                ==> self.task_live(self.task_manager.ready_queue@[k])
                    && self.status_of(self.task_manager.ready_queue@[k]) is Ready,
            (self.processor.current matches Some(r)
                ==> (r.pid as int == pid
                    ==> self.task_live(r) && self.status_of(r) is Running)),
        ensures
            self.wf(),
    {
        assert forall|p: int| #[trigger] self.proc_live(p) && p != pid
            implies k0.proc_live(p) && self.proc_of(p) == k0.proc_of(p) by {}
        assert forall|p: int, k: int|
            self.proc_live(p) && 0 <= k < self.proc_of(p).inner.children@.len() implies {
                let c = (#[trigger] self.proc_of(p).inner.children@[k]) as int;
                self.proc_live(c) && self.proc_of(c).inner.parent == Some(p as usize)
            } by {
            let c = self.proc_of(p).inner.children@[k] as int;
            if p == pid {
                assert(k0.proc_live(c));
                assert(self.proc_of(c) == k0.proc_of(c));
                assert(self.proc_live(c));
            } else {
                assert(k0.proc_live(p));
                assert(k0.proc_of(p).inner.children@[k]
                    == self.proc_of(p).inner.children@[k]);
                assert(k0.proc_live(c));
                if c == pid {
                    assert(self.proc_live(pid));
                    assert(self.proc_of(pid).inner.parent == Some(p as usize));
                } else {
                    assert(self.proc_of(c) == k0.proc_of(c));
                }
            }
        }
        assert forall|p: int| #[trigger] self.proc_live(p)
            && self.proc_of(p).inner.parent is Some implies {
                let q = self.proc_of(p).inner.parent->0 as int;
                self.proc_live(q) && q != p
            } by {
            let q = self.proc_of(p).inner.parent->0 as int;
            if p == pid {
                assert(k0.proc_live(q));
                assert(self.proc_live(q));
            } else {
                assert(k0.proc_live(p));
                assert(k0.proc_live(q));
                assert(self.proc_live(q));
            }
        }
        assert forall|k: int| 0 <= k < self.task_manager.ready_queue@.len() implies {
            let r = #[trigger] self.task_manager.ready_queue@[k];
            self.task_live(r) && self.status_of(r) is Ready
        } by {
            let r = self.task_manager.ready_queue@[k];
            if r.pid as int != pid {
                assert(k0.task_live(r));
            }
        }
        if self.processor.current is Some {
            let r = self.processor.current->0;
            if r.pid as int != pid {
                assert(k0.task_live(r));
            }
        }
    }

    /// Queueing a ready task that is not already queued keeps the invariant.
    proof fn lemma_enqueue_ready(&self, k0: Kernel, t: TaskRef)
        requires
            k0.wf(),
            self.processes@ == k0.processes@,
            self.pid_allocator == k0.pid_allocator,
            self.processor == k0.processor,
            self.task_manager.ready_queue@ == k0.task_manager.ready_queue@.push(t),
            k0.task_live(t),
            k0.status_of(t) is Ready,
            forall|k: int| 0 <= k < k0.task_manager.ready_queue@.len()
                ==> k0.task_manager.ready_queue@[k] != t,
        ensures
            self.wf(),
    {
        let q0 = k0.task_manager.ready_queue@;
        assert forall|p: int| #[trigger] self.proc_live(p)
            implies k0.proc_live(p) && self.proc_of(p) == k0.proc_of(p) by {}
        assert forall|k: int| 0 <= k < self.task_manager.ready_queue@.len() implies {
            let r = #[trigger] self.task_manager.ready_queue@[k];
            self.task_live(r) && self.status_of(r) is Ready
        } by {
            if k < q0.len() {
                assert(self.task_manager.ready_queue@[k] == q0[k]);
            } else {
                assert(self.task_manager.ready_queue@[k] == t);
            }
        }
        assert forall|k1: int, k2: int|
            0 <= k1 < k2 < self.task_manager.ready_queue@.len()
                implies self.task_manager.ready_queue@[k1]
                    != self.task_manager.ready_queue@[k2] by {
            if k2 == q0.len() {
                assert(q0[k1] != t);
            }
        }
    }
}


impl Kernel {
    /// Suspends the running task: it re-enters the ready queue at the back
    /// and the processor becomes free.
    pub fn suspend_current_and_run_next(&mut self)
        requires
            old(self).wf(),
            old(self).processor.current is Some,
        ensures
            final(self).wf(),
            final(self).processor.current is None,
            final(self).task_manager.ready_queue@
                == old(self).task_manager.ready_queue@.push(old(self).processor.current->0),
            final(self).processes@.len() == old(self).processes@.len(),
            forall|j: int| 0 <= j < old(self).processes@.len()
                && j != old(self).processor.current->0.pid
                ==> final(self).processes@[j] == old(self).processes@[j],
            final(self).status_of(old(self).processor.current->0) is Ready,
            final(self).pid_allocator == old(self).pid_allocator,
            final(self).task_live(old(self).processor.current->0),
            ({
                let cur = old(self).processor.current->0;
                let p0 = old(self).proc_of(cur.pid as int).inner;
                let p1 = final(self).proc_of(cur.pid as int).inner;
                &&& final(self).proc_of(cur.pid as int) == (ProcessControlBlock {
                    inner: p1, ..old(self).proc_of(cur.pid as int)
                })
                &&& p1 == (ProcessControlBlockInner { tasks: p1.tasks, ..p0 })
                &&& p1.tasks@.len() == p0.tasks@.len()
                &&& (forall|j: int| 0 <= j < p0.tasks@.len() && j != cur.tid
                    ==> p1.tasks@[j] == p0.tasks@[j])
                &&& p1.task_of(cur.tid as int) == (TaskControlBlock {
                    task_status: TaskStatus::Ready, ..p0.task_of(cur.tid as int)
                })
            }),
    {
        let cur = self.processor.current.unwrap();
        self.processor.current = None;
        let ghost k0 = *self;
        proof {
            assert(k0.wf()) by {
                assert forall|p: int| #[trigger] k0.proc_live(p)
                    implies old(self).proc_live(p) && k0.proc_of(p) == old(self).proc_of(p) by {}
            }
        }
        let mut pcb = self.processes[cur.pid].take().unwrap();
        pcb.inner.set_task_ready(cur.tid);
        self.processes[cur.pid] = Some(pcb);
        proof {
            self.lemma_one_proc_updated(k0, cur.pid as int);
        }
        let ghost k1 = *self;
        self.task_manager.add(cur);
        proof {
            assert forall|k: int| 0 <= k < k1.task_manager.ready_queue@.len()
                implies k1.task_manager.ready_queue@[k] != cur by {
                let r = k1.task_manager.ready_queue@[k];
                assert(old(self).status_of(r) is Ready);
            }
            self.lemma_enqueue_ready(k1, cur);
        }
    }

    /// Picks the task that has been ready longest, marks it running and
    /// loads it on the processor. Returns it for the context-switch black
    /// box, or `None` when nothing is runnable.
    pub fn run_next_task(&mut self) -> (task: Option<TaskRef>)
        requires
            old(self).wf(),
            old(self).processor.current is None,
        ensures
            final(self).wf(),
            (task is Some <==> old(self).task_manager.ready_queue@.len() > 0),
            (task is Some ==> {
                &&& task->0 == old(self).task_manager.ready_queue@[0]
                &&& final(self).processor.current == task
                &&& final(self).status_of(task->0) is Running
                &&& final(self).task_manager.ready_queue@
                    == old(self).task_manager.ready_queue@.subrange(
                        1, old(self).task_manager.ready_queue@.len() as int)
            }),
            (task is None ==> final(self).processes@ == old(self).processes@
                && final(self).processor == old(self).processor
                && final(self).task_manager.ready_queue@
                    == old(self).task_manager.ready_queue@),
    {
        let picked = self.task_manager.fetch();
        match picked {
            Some(r) => {
                let ghost k0 = *self;
                proof {
                    assert(old(self).task_live(r));
                    assert(old(self).status_of(r) is Ready);
                }
                let mut pcb = self.processes[r.pid].take().unwrap();
                pcb.inner.set_task_running(r.tid);
                self.processes[r.pid] = Some(pcb);
                self.processor.current = Some(r);
                proof {
                    let ghost k2 = Kernel { processor: Processor { current: None }, ..*self };
                    assert(k0.wf()) by {
                        assert forall|p: int| #[trigger] k0.proc_live(p)
                            implies old(self).proc_live(p)
                                && k0.proc_of(p) == old(self).proc_of(p) by {}
                        assert forall|k: int| 0 <= k < k0.task_manager.ready_queue@.len()
                            implies {
                                let r2 = #[trigger] k0.task_manager.ready_queue@[k];
                                k0.task_live(r2) && k0.status_of(r2) is Ready
                            } by {
                            let r2 = k0.task_manager.ready_queue@[k];
                            assert(r2 == old(self).task_manager.ready_queue@[k + 1]);
                            assert(old(self).task_live(r2));
                        }
                        assert forall|k1: int, k2a: int|
                            0 <= k1 < k2a < k0.task_manager.ready_queue@.len()
                                implies k0.task_manager.ready_queue@[k1]
                                    != k0.task_manager.ready_queue@[k2a] by {
                            assert(k0.task_manager.ready_queue@[k1]
                                == old(self).task_manager.ready_queue@[k1 + 1]);
                            assert(k0.task_manager.ready_queue@[k2a]
                                == old(self).task_manager.ready_queue@[k2a + 1]);
                        }
                    }
                    self.lemma_run_current(k0, r);
                }
                Some(r)
            }
            None => {
                proof {
                    self.lemma_wf_same_views(*old(self));
                }
                None
            }
        }
    }

    /// The invariant depends only on the views of the kernel's parts.
    proof fn lemma_wf_same_views(&self, k0: Kernel)
        requires
            k0.wf(),
            self.processes@ == k0.processes@,
            self.pid_allocator == k0.pid_allocator,
            self.task_manager.ready_queue@ == k0.task_manager.ready_queue@,
            self.processor == k0.processor,
        ensures
            self.wf(),
    {
        assert forall|p: int| #[trigger] self.proc_live(p)
            implies k0.proc_live(p) && self.proc_of(p) == k0.proc_of(p) by {}
        assert forall|p: int, k: int|
            self.proc_live(p) && 0 <= k < self.proc_of(p).inner.children@.len() implies {
                let c = (#[trigger] self.proc_of(p).inner.children@[k]) as int;
                self.proc_live(c) && self.proc_of(c).inner.parent == Some(p as usize)
            } by {
            assert(k0.proc_live(p));
            let c = self.proc_of(p).inner.children@[k] as int;
            assert(k0.proc_live(c));
        }
        assert forall|p: int| #[trigger] self.proc_live(p)
            && self.proc_of(p).inner.parent is Some implies {
                let q = self.proc_of(p).inner.parent->0 as int;
                self.proc_live(q) && q != p
            } by {
            assert(k0.proc_live(p));
            let q = self.proc_of(p).inner.parent->0 as int;
            assert(k0.proc_live(q));
        }
        assert forall|k: int| 0 <= k < self.task_manager.ready_queue@.len() implies {
            let r2 = #[trigger] self.task_manager.ready_queue@[k];
            self.task_live(r2) && self.status_of(r2) is Ready
        } by {
            let r2 = k0.task_manager.ready_queue@[k];
            assert(k0.task_live(r2));
        }
        if self.processor.current is Some {
            let r2 = self.processor.current->0;
            assert(k0.task_live(r2));
        }
    }

    /// Marking a ready task running and loading it on the free processor
    /// keeps the invariant, provided it was no longer queued.
    proof fn lemma_run_current(&self, k0: Kernel, r: TaskRef)
        requires
            k0.wf(),
            k0.processor.current is None,
            k0.task_live(r),
            k0.status_of(r) is Ready,
            self.processes@.len() == k0.processes@.len(),
            forall|j: int| 0 <= j < k0.processes@.len() && j != r.pid
                ==> self.processes@[j] == k0.processes@[j],
            self.proc_live(r.pid as int),
            self.proc_of(r.pid as int) == (ProcessControlBlock {
                inner: self.proc_of(r.pid as int).inner,
                ..k0.proc_of(r.pid as int)
            }),
            self.proc_of(r.pid as int).inner.wf(),
            self.proc_of(r.pid as int).inner.tasks@ == k0.proc_of(r.pid as int).inner.tasks@
                .update(r.tid as int, self.proc_of(r.pid as int).inner.tasks@[r.tid as int]),
            self.proc_of(r.pid as int).inner.live(r.tid as int),
            self.proc_of(r.pid as int).inner.task_of(r.tid as int).task_status
                is Running,
            self.proc_of(r.pid as int).inner
                == (ProcessControlBlockInner {
                    tasks: self.proc_of(r.pid as int).inner.tasks,
                    ..k0.proc_of(r.pid as int).inner
                }),
            self.pid_allocator == k0.pid_allocator,
            self.task_manager == k0.task_manager,
            self.processor.current == Some(r),
            forall|k: int| 0 <= k < k0.task_manager.ready_queue@.len()
                ==> k0.task_manager.ready_queue@[k] != r,
        ensures
            self.wf(),
    {
        let ghost mid = Kernel { processor: Processor { current: None }, ..*self };
        mid.lemma_one_proc_updated(k0, r.pid as int);
        assert(self.proc_live(r.pid as int));
        assert forall|p: int| #[trigger] self.proc_live(p)
            implies mid.proc_live(p) && self.proc_of(p) == mid.proc_of(p) by {}
        assert forall|k: int| 0 <= k < self.task_manager.ready_queue@.len() implies {
            let r2 = #[trigger] self.task_manager.ready_queue@[k];
            self.task_live(r2) && self.status_of(r2) is Ready
        } by {
            let r2 = self.task_manager.ready_queue@[k];
            assert(mid.task_live(r2) && mid.status_of(r2) is Ready);
        }
        assert(self.task_live(r));
        assert(self.status_of(r) is Running);
    }

    /// Counts one invocation of `syscall_id` against the running task.
    pub fn add_syscall(&mut self, syscall_id: usize)
        requires
            old(self).wf(),
            old(self).processor.current is Some,
            syscall_id < MAX_SYSCALL_NUM,
            ({
                let r = old(self).processor.current->0;
                old(self).proc_of(r.pid as int).inner.task_of(r.tid as int)
                    .run_time@[syscall_id as int] < u32::MAX
            }),
        ensures
            final(self).wf(),
            final(self).processor.current == old(self).processor.current,
            final(self).task_manager == old(self).task_manager,
            final(self).pid_allocator == old(self).pid_allocator,
            final(self).processes@.len() == old(self).processes@.len(),
            forall|j: int| 0 <= j < old(self).processes@.len()
                && j != old(self).processor.current->0.pid
                ==> final(self).processes@[j] == old(self).processes@[j],
            ({
                let cur = old(self).processor.current->0;
                let p0 = old(self).proc_of(cur.pid as int).inner;
                let p1 = final(self).proc_of(cur.pid as int).inner;
                let t0 = p0.task_of(cur.tid as int);
                let t1 = p1.task_of(cur.tid as int);
                &&& final(self).proc_of(cur.pid as int) == (ProcessControlBlock {
                    inner: p1, ..old(self).proc_of(cur.pid as int)
                })
                &&& p1 == (ProcessControlBlockInner { tasks: p1.tasks, ..p0 })
                &&& p1.tasks@.len() == p0.tasks@.len()
                &&& (forall|j: int| 0 <= j < p0.tasks@.len() && j != cur.tid
                    ==> p1.tasks@[j] == p0.tasks@[j])
                &&& t1 == (TaskControlBlock { run_time: t1.run_time, ..t0 })
                &&& t1.run_time@ == t0.run_time@.update(syscall_id as int,
                    (t0.run_time@[syscall_id as int] + 1) as u32)
            }),
    {
        let cur = self.processor.current.unwrap();
        let ghost k0 = *self;
        let mut pcb = self.processes[cur.pid].take().unwrap();
        pcb.inner.bump_run_time(cur.tid, syscall_id);
        self.processes[cur.pid] = Some(pcb);
        proof {
            self.lemma_one_proc_updated(k0, cur.pid as int);
        }
    }

    /// Forks the current single-threaded process: the child gets a fresh
    /// pid, a cloned descriptor table sharing the underlying files, zeroed
    /// resource accounting, a back-reference to the parent — which now lists
    /// it as a child — and a ready main thread queued at the back. Returns
    /// the child pid. `new_token` names the address space the memory
    /// subsystem cloned for the child.
    pub fn fork(&mut self, new_token: usize, start_time: usize) -> (child: usize)
        requires
            old(self).wf(),
            old(self).processor.current is Some,
            old(self).proc_live(INIT_PID as int),
            old(self).proc_of(old(self).processor.current->0.pid as int)
                .inner.tasks@.len() == 1,
            old(self).pid_allocator.current < usize::MAX,
            old(self).processes@.len() < usize::MAX,
        ensures
            final(self).wf(),
            final(self).processor.current == old(self).processor.current,
            !old(self).proc_live(child as int),
            final(self).proc_live(child as int),
            child != old(self).processor.current->0.pid,
            // Frame: only the child's slot and the parent's child list
            // change; slots the arena grew by stay empty.
            final(self).processes@.len() >= old(self).processes@.len(),
            forall|j: int| 0 <= j < old(self).processes@.len() && j != child
                && j != old(self).processor.current->0.pid
                ==> final(self).processes@[j] == old(self).processes@[j],
            forall|j: int| old(self).processes@.len() <= j < final(self).processes@.len()
                && j != child
                ==> final(self).processes@[j] is None,
            ({
                let parent = old(self).processor.current->0.pid;
                &&& final(self).proc_of(parent as int).inner == (ProcessControlBlockInner {
                    children: final(self).proc_of(parent as int).inner.children,
                    ..old(self).proc_of(parent as int).inner
                })
            }),
            ({
                let parent = old(self).processor.current->0.pid;
                let c = final(self).proc_of(child as int);
                &&& c.inner.parent == Some(parent)
                &&& c.inner.fd_table@ == old(self).proc_of(parent as int).inner.fd_table@
                &&& c.inner.children@.len() == 0
                &&& !c.inner.is_zombie
                &&& c.inner.memory_set.token == new_token
                &&& c.inner.tasks@.len() == 1
                &&& c.inner.live(0)
                &&& (forall|r: int| 0 <= r < RES_LIMIT
                    ==> #[trigger] c.inner.available@[r] == 0
                        && c.inner.available_sem@[r] == 0
                        && c.inner.task_of(0).allocated@[r] == 0
                        && c.inner.task_of(0).allocated_sem@[r] == 0)
                &&& final(self).proc_of(parent as int).inner.children@
                    == old(self).proc_of(parent as int).inner.children@.push(child)
            }),
            final(self).task_manager.ready_queue@
                == old(self).task_manager.ready_queue@.push(
                    TaskRef { pid: child, tid: 0 }),
    {
        let cur = self.processor.current.unwrap();
        let child_pid = self.alloc_pid_slot();
        proof {
            assert(old(self).proc_live(cur.pid as int));
            assert(self.proc_live(cur.pid as int)) by {
                assert(self.processes@[cur.pid as int]
                    == old(self).processes@[cur.pid as int]);
            }
            assert(cur.pid != child_pid);
            assert(child_pid != INIT_PID) by {
                if child_pid == INIT_PID {
                    assert(!old(self).pid_allocator.is_allocated(INIT_PID as int));
                }
            }
            assert(!old(self).proc_live(child_pid as int)) by {
                if old(self).proc_live(child_pid as int) {
                    assert(old(self).pid_allocator.is_allocated(child_pid as int));
                }
            }
        }
        let ghost k1 = *self;
        // Build the child from the parent.
        let parent_ref = self.processes[cur.pid].as_ref().unwrap();
        let child = parent_ref.fork(child_pid, new_token, start_time);
        let ghost k1b = *self;
        self.processes[child_pid] = Some(child);
        proof {
            assert(k1b == k1);
            assert forall|p2: int, k: int| k1.proc_live(p2)
                && 0 <= k < k1.proc_of(p2).inner.children@.len()
                implies (#[trigger] k1.proc_of(p2).inner.children@[k]) as int
                    != child_pid as int by {
                let c = k1.proc_of(p2).inner.children@[k] as int;
                assert(k1.proc_live(c));
            }
            self.lemma_one_proc_updated(k1, child_pid as int);
        }
        // Link the child into the parent.
        let ghost k2 = *self;
        let mut parent_pcb = self.processes[cur.pid].take().unwrap();
        parent_pcb.inner.push_child(child_pid);
        self.processes[cur.pid] = Some(parent_pcb);
        proof {
            assert forall|k: int|
                0 <= k < self.proc_of(cur.pid as int).inner.children@.len()
                implies {
                    let c = (#[trigger] self.proc_of(cur.pid as int).inner.children@[k]) as int;
                    c != cur.pid && k2.proc_live(c)
                        && k2.proc_of(c).inner.parent == Some(cur.pid)
                } by {
                let kids = self.proc_of(cur.pid as int).inner.children@;
                if k < kids.len() - 1 {
                    assert(kids[k] == k2.proc_of(cur.pid as int).inner.children@[k]);
                    assert(k2.proc_live(kids[k] as int));
                } else {
                    assert(kids[k] == child_pid);
                }
            }
            assert forall|k1a: int, k2a: int|
                0 <= k1a < k2a < self.proc_of(cur.pid as int).inner.children@.len()
                implies self.proc_of(cur.pid as int).inner.children@[k1a]
                    != self.proc_of(cur.pid as int).inner.children@[k2a] by {
                let kids = self.proc_of(cur.pid as int).inner.children@;
                if k2a == kids.len() - 1 {
                    let c = kids[k1a] as int;
                    assert(k2.proc_of(c).inner.parent == Some(cur.pid));
                    assert(!k2.proc_live(child_pid as int) || true);
                    if kids[k1a] == child_pid {
                        assert(k2.proc_of(child_pid as int).inner.parent == Some(cur.pid));
                        assert(false);
                    }
                }
            }
            self.lemma_one_proc_updated(k2, cur.pid as int);
        }
        // Queue the child's main thread.
        let ghost k3 = *self;
        self.task_manager.add(TaskRef { pid: child_pid, tid: 0 });
        proof {
            assert(k3.task_live(TaskRef { pid: child_pid, tid: 0 }));
            assert forall|k: int| 0 <= k < k3.task_manager.ready_queue@.len()
                implies k3.task_manager.ready_queue@[k]
                    != (TaskRef { pid: child_pid, tid: 0 }) by {
                let r2 = k3.task_manager.ready_queue@[k];
                assert(old(self).task_live(r2));
                if r2.pid == child_pid {
                    assert(old(self).proc_live(child_pid as int));
                }
            }
            self.lemma_enqueue_ready(k3, TaskRef { pid: child_pid, tid: 0 });
        }
        child_pid
    }

    /// Spawns a process from a looked-up program image as a child of the
    /// current process, queueing its main thread. Returns the new pid, or -1
    /// when the image lookup failed (the name was not found).
    pub fn new_process(&mut self, image: Option<Image>, start_time: usize) -> (r: isize)
        requires
            old(self).wf(),
            old(self).processor.current is Some,
            old(self).proc_live(INIT_PID as int),
            old(self).pid_allocator.current < isize::MAX,
            old(self).processes@.len() < usize::MAX,
        ensures
            final(self).wf(),
            final(self).processor.current == old(self).processor.current,
            (image is None ==> r == -1 && *final(self) == *old(self)),
            (image is Some ==> {
                let pid = r as int;
                let parent = old(self).processor.current->0.pid;
                &&& r >= 0
                &&& !old(self).proc_live(pid)
                &&& final(self).proc_live(pid)
                &&& final(self).proc_of(pid).inner.parent == Some(parent)
                &&& final(self).proc_of(pid).inner.memory_set.token == image->0.token
                &&& final(self).task_manager.ready_queue@
                    == old(self).task_manager.ready_queue@.push(
                        TaskRef { pid: r as usize, tid: 0 })
                // The spawned process is recorded as a child of the caller;
                // nothing else about the caller or other processes changes.
                &&& final(self).proc_of(parent as int).inner.children@
                    == old(self).proc_of(parent as int).inner.children@.push(r as usize)
                &&& final(self).proc_of(parent as int).inner == (ProcessControlBlockInner {
                    children: final(self).proc_of(parent as int).inner.children,
                    ..old(self).proc_of(parent as int).inner
                })
                &&& final(self).processes@.len() >= old(self).processes@.len()
                &&& (forall|j: int| 0 <= j < old(self).processes@.len() && j != pid
                    && j != parent
                    ==> final(self).processes@[j] == old(self).processes@[j])
                &&& (forall|j: int|
                    old(self).processes@.len() <= j < final(self).processes@.len()
                        && j != pid
                    ==> final(self).processes@[j] is None)
            }),
    {
        let image = match image {
            Some(i) => i,
            None => {
                return -1;
            }
        };
        let cur = self.processor.current.unwrap();
        let new_pid = self.alloc_pid_slot();
        proof {
            assert(old(self).proc_live(cur.pid as int));
            assert(self.proc_live(cur.pid as int)) by {
                assert(self.processes@[cur.pid as int]
                    == old(self).processes@[cur.pid as int]);
            }
            assert(cur.pid != new_pid);
            assert(new_pid != INIT_PID) by {
                if new_pid == INIT_PID {
                    assert(!old(self).pid_allocator.is_allocated(INIT_PID as int));
                }
            }
            assert(!old(self).proc_live(new_pid as int)) by {
                if old(self).proc_live(new_pid as int) {
                    assert(old(self).pid_allocator.is_allocated(new_pid as int));
                }
            }
            assert(new_pid <= old(self).pid_allocator.current) by {
                if new_pid > old(self).pid_allocator.current {
                    assert(old(self).pid_allocator.is_allocated(
                        old(self).pid_allocator.current as int));
                }
            }
        }
        let ghost k1 = *self;
        let mut pcb = ProcessControlBlock::new(new_pid, image, start_time);
        pcb.inner.set_parent(Some(cur.pid));
        self.processes[new_pid] = Some(pcb);
        proof {
            assert forall|p2: int, k: int| k1.proc_live(p2)
                && 0 <= k < k1.proc_of(p2).inner.children@.len()
                implies (#[trigger] k1.proc_of(p2).inner.children@[k]) as int
                    != new_pid as int by {
                let c = k1.proc_of(p2).inner.children@[k] as int;
                assert(k1.proc_live(c));
            }
            self.lemma_one_proc_updated(k1, new_pid as int);
        }
        let ghost k2 = *self;
        let mut parent_pcb = self.processes[cur.pid].take().unwrap();
        parent_pcb.inner.push_child(new_pid);
        self.processes[cur.pid] = Some(parent_pcb);
        proof {
            assert forall|k: int|
                0 <= k < self.proc_of(cur.pid as int).inner.children@.len()
                implies {
                    let c = (#[trigger] self.proc_of(cur.pid as int).inner.children@[k]) as int;
                    c != cur.pid && k2.proc_live(c)
                        && k2.proc_of(c).inner.parent == Some(cur.pid)
                } by {
                let kids = self.proc_of(cur.pid as int).inner.children@;
                if k < kids.len() - 1 {
                    assert(kids[k] == k2.proc_of(cur.pid as int).inner.children@[k]);
                    assert(k2.proc_live(kids[k] as int));
                } else {
                    assert(kids[k] == new_pid);
                }
            }
            assert forall|k1a: int, k2a: int|
                0 <= k1a < k2a < self.proc_of(cur.pid as int).inner.children@.len()
                implies self.proc_of(cur.pid as int).inner.children@[k1a]
                    != self.proc_of(cur.pid as int).inner.children@[k2a] by {
                let kids = self.proc_of(cur.pid as int).inner.children@;
                if k2a == kids.len() - 1 {
                    if kids[k1a] == new_pid {
                        assert(k2.proc_of(new_pid as int).inner.parent == Some(cur.pid));
                        assert(false);
                    }
                }
            }
            self.lemma_one_proc_updated(k2, cur.pid as int);
        }
        let ghost k3 = *self;
        self.task_manager.add(TaskRef { pid: new_pid, tid: 0 });
        proof {
            assert forall|k: int| 0 <= k < k3.task_manager.ready_queue@.len()
                implies k3.task_manager.ready_queue@[k]
                    != (TaskRef { pid: new_pid, tid: 0 }) by {
                let r2 = k3.task_manager.ready_queue@[k];
                assert(old(self).task_live(r2));
                if r2.pid == new_pid {
                    assert(old(self).proc_live(new_pid as int));
                }
            }
            self.lemma_enqueue_ready(k3, TaskRef { pid: new_pid, tid: 0 });
        }
        new_pid as isize
    }
}


impl Kernel {
    /// Exits the running task: it becomes a zombie with the given exit code,
    /// its process is marked a zombie, every live child is reparented to the
    /// initial process — which now lists them all — and the task leaves the
    /// processor without re-entering the ready queue. The initial process
    /// itself never exits this way.
    #[verifier::loop_isolation(false)]
    pub fn exit_current_and_run_next(&mut self, exit_code: i32)
        requires
            old(self).wf(),
            old(self).processor.current is Some,
            old(self).processor.current->0.pid != INIT_PID,
            old(self).proc_live(INIT_PID as int),
        ensures
            final(self).wf(),
            final(self).processor.current is None,
            final(self).task_manager.ready_queue@ == old(self).task_manager.ready_queue@,
            final(self).pid_allocator == old(self).pid_allocator,
            final(self).processes@.len() == old(self).processes@.len(),
            // Frame: only the exiting process, its children and the initial
            // process change.
            forall|j: int| 0 <= j < old(self).processes@.len()
                && j != old(self).processor.current->0.pid && j != INIT_PID
                && !old(self).proc_of(old(self).processor.current->0.pid as int)
                    .inner.children@.contains(j as usize)
                ==> final(self).processes@[j] == old(self).processes@[j],
            ({
                let cur = old(self).processor.current->0;
                let kids = old(self).proc_of(cur.pid as int).inner.children@;
                let p0 = old(self).proc_of(cur.pid as int).inner;
                let p1 = final(self).proc_of(cur.pid as int).inner;
                &&& final(self).proc_live(cur.pid as int)
                &&& p1.is_zombie
                &&& p1.exit_code == exit_code
                &&& final(self).status_of(cur) is Zombie
                &&& p1.children@.len() == 0
                // The exiting process changes only in its zombie marks, its
                // exiting task and its emptied child list.
                &&& p1 == (ProcessControlBlockInner {
                    tasks: p1.tasks,
                    is_zombie: true,
                    exit_code: exit_code,
                    children: p1.children,
                    ..p0
                })
                &&& p1.tasks@.len() == p0.tasks@.len()
                &&& (forall|j: int| 0 <= j < p0.tasks@.len() && j != cur.tid
                    ==> p1.tasks@[j] == p0.tasks@[j])
                // Each child changes only in its parent back-reference.
                &&& (forall|k: int| 0 <= k < kids.len() ==> {
                    let c = (#[trigger] kids[k]) as int;
                    &&& final(self).proc_live(c)
                    &&& final(self).proc_of(c).inner == (ProcessControlBlockInner {
                        parent: Some(INIT_PID),
                        ..old(self).proc_of(c).inner
                    })
                })
                // The initial process changes only in its extended child list.
                &&& final(self).proc_of(INIT_PID as int).inner.children@
                    == old(self).proc_of(INIT_PID as int).inner.children@ + kids
                &&& final(self).proc_of(INIT_PID as int).inner == (ProcessControlBlockInner {
                    children: final(self).proc_of(INIT_PID as int).inner.children,
                    ..old(self).proc_of(INIT_PID as int).inner
                })
            }),
    {
        let cur = self.processor.current.unwrap();
        self.processor.current = None;
        let ghost k0 = *self;
        proof {
            assert(k0.wf()) by {
                assert forall|p: int| #[trigger] k0.proc_live(p)
                    implies old(self).proc_live(p)
                        && k0.proc_of(p) == old(self).proc_of(p) by {}
            }
        }
        // Mark the task and its process zombies and detach the children.
        let mut pcb = self.processes[cur.pid].take().unwrap();
        pcb.inner.task_exit(cur.tid, exit_code);
        let kids = pcb.inner.take_children();
        self.processes[cur.pid] = Some(pcb);
        proof {
            self.lemma_one_proc_updated(k0, cur.pid as int);
        }
        let ghost base = *self;
        let ghost kids0 = k0.proc_of(cur.pid as int).inner.children@;
        proof {
            assert(base.proc_live(INIT_PID as int)) by {
                assert(base.processes@[INIT_PID as int] == k0.processes@[INIT_PID as int]);
            }
            assert(base.proc_of(cur.pid as int).inner.children@.len() == 0);
            // No process lists the children any more, and none of them is
            // the initial process or the exiting one.
            assert forall|k: int| 0 <= k < kids0.len() implies {
                let c = (#[trigger] kids0[k]) as int;
                &&& base.proc_live(c)
                &&& base.proc_of(c).inner.parent == Some(cur.pid)
                &&& c != INIT_PID
                &&& c != cur.pid
            } by {
                let c = kids0[k] as int;
                assert(k0.proc_live(c));
                assert(k0.proc_of(c).inner.parent == Some(cur.pid));
            }
        }
        // Reparent each child to the initial process.
        let mut k: usize = 0;
        while k < kids.len()
            invariant
                self.wf(),
                kids@ == kids0,
                k <= kids0.len(),
                self.processes@.len() == base.processes@.len(),
                self.pid_allocator == base.pid_allocator,
                self.task_manager == base.task_manager,
                self.processor == base.processor,
                self.processor.current is None,
                forall|j: int| 0 <= j < base.processes@.len()
                    && !(exists|kk: int| 0 <= kk < k && kids0[kk] == j)
                    ==> self.processes@[j] == base.processes@[j],
                forall|kk: int| 0 <= kk < kids0.len() ==> {
                    let c = (#[trigger] kids0[kk]) as int;
                    &&& self.proc_live(c)
                    &&& c != INIT_PID
                    &&& c != cur.pid
                    &&& self.proc_of(c) == (ProcessControlBlock {
                        inner: ProcessControlBlockInner {
                            parent: if kk < k { Some(INIT_PID) } else { Some(cur.pid) },
                            ..base.proc_of(c).inner
                        },
                        ..base.proc_of(c)
                    })
                },
            decreases kids0.len() - k,
        {
            let c = kids[k];
            let ghost kpre = *self;
            proof {
                assert(kids0[k as int] == c);
                assert(kpre.proc_live(c as int));
                assert(!(exists|kk2: int| 0 <= kk2 < k && kids0[kk2] == cur.pid));
                assert(kpre.processes@[cur.pid as int] == base.processes@[cur.pid as int]);
                assert(kpre.proc_of(cur.pid as int).inner.children@.len() == 0);
                assert(!(exists|kk2: int| 0 <= kk2 < k && kids0[kk2] == INIT_PID));
                assert(kpre.processes@[INIT_PID as int] == base.processes@[INIT_PID as int]);
                assert(kpre.proc_live(INIT_PID as int));
            }
            let mut cpcb = self.processes[c].take().unwrap();
            cpcb.inner.set_parent(Some(INIT_PID));
            self.processes[c] = Some(cpcb);
            proof {
                assert forall|p2: int, kk: int| kpre.proc_live(p2) && p2 != c
                    && 0 <= kk < kpre.proc_of(p2).inner.children@.len()
                    implies (#[trigger] kpre.proc_of(p2).inner.children@[kk]) as int
                        != c as int by {
                    if kpre.proc_of(p2).inner.children@[kk] == c {
                        assert(kpre.proc_of(c as int).inner.parent == Some(p2 as usize));
                        // The child's parent names the exiting process, whose
                        // child list is already empty.
                        assert(p2 == cur.pid as int);
                        assert(kpre.proc_of(cur.pid as int).inner.children@.len() == 0);
                    }
                }
                self.lemma_one_proc_updated(kpre, c as int);
                assert forall|kk: int| 0 <= kk < kids0.len() implies {
                    let c2 = (#[trigger] kids0[kk]) as int;
                    self.proc_live(c2) && self.proc_of(c2) == (ProcessControlBlock {
                        inner: ProcessControlBlockInner {
                            parent: if kk < k + 1 { Some(INIT_PID) } else { Some(cur.pid) },
                            ..base.proc_of(c2).inner
                        },
                        ..base.proc_of(c2)
                    })
                } by {
                    let c2 = kids0[kk] as int;
                    if c2 != c as int {
                        assert(self.processes@[c2] == kpre.processes@[c2]);
                        if kids0[kk] == kids0[k as int] {
                            assert(false);
                        }
                    } else {
                        assert(kk == k as int) by {
                            if kk != k as int {
                                assert(kpre.proc_of(c2).inner.parent == Some(cur.pid)
                                    || kpre.proc_of(c2).inner.parent == Some(INIT_PID));
                            }
                        }
                    }
                }
            }
            k = k + 1;
        }
        // Hand all the children to the initial process.
        let ghost kmid = *self;
        proof {
            assert(!(exists|kk2: int| 0 <= kk2 < kids0.len() && kids0[kk2] == INIT_PID));
            assert(kmid.processes@[INIT_PID as int] == base.processes@[INIT_PID as int]);
            assert(kmid.proc_live(INIT_PID as int));
        }
        let mut init_pcb = self.processes[INIT_PID].take().unwrap();
        let mut k2: usize = 0;
        while k2 < kids.len()
            invariant
                k2 <= kids0.len(),
                kids@ == kids0,
                init_pcb.inner.wf(),
                init_pcb.inner.children@ == kmid.proc_of(INIT_PID as int).inner.children@
                    + kids0.subrange(0, k2 as int),
                init_pcb == (ProcessControlBlock {
                    inner: ProcessControlBlockInner {
                        children: init_pcb.inner.children,
                        ..kmid.proc_of(INIT_PID as int).inner
                    },
                    ..kmid.proc_of(INIT_PID as int)
                }),
                *self == (Kernel { processes: self.processes, ..kmid }),
                self.processes@ == kmid.processes@.update(INIT_PID as int, None),
            decreases kids0.len() - k2,
        {
            init_pcb.inner.push_child(kids[k2]);
            proof {
                assert(init_pcb.inner.children@
                    =~= kmid.proc_of(INIT_PID as int).inner.children@
                        + kids0.subrange(0, k2 + 1));
            }
            k2 = k2 + 1;
        }
        self.processes[INIT_PID] = Some(init_pcb);
        proof {
            assert(kids0.subrange(0, kids0.len() as int) =~= kids0);
            assert forall|kk: int|
                0 <= kk < self.proc_of(INIT_PID as int).inner.children@.len()
                implies {
                    let c = (#[trigger] self.proc_of(INIT_PID as int).inner.children@[kk]) as int;
                    c != INIT_PID && kmid.proc_live(c)
                        && kmid.proc_of(c).inner.parent == Some(INIT_PID)
                } by {
                let kids_all = self.proc_of(INIT_PID as int).inner.children@;
                let old_kids = kmid.proc_of(INIT_PID as int).inner.children@;
                if kk < old_kids.len() {
                    assert(kids_all[kk] == old_kids[kk]);
                    assert(kmid.proc_live(old_kids[kk] as int));
                } else {
                    assert(kids_all[kk] == kids0[kk - old_kids.len()]);
                }
            }
            assert forall|k1a: int, k2a: int|
                0 <= k1a < k2a < self.proc_of(INIT_PID as int).inner.children@.len()
                implies self.proc_of(INIT_PID as int).inner.children@[k1a]
                    != self.proc_of(INIT_PID as int).inner.children@[k2a] by {
                let kids_all = self.proc_of(INIT_PID as int).inner.children@;
                let old_kids = kmid.proc_of(INIT_PID as int).inner.children@;
                if k1a < old_kids.len() && k2a >= old_kids.len() {
                    // An old child of the initial process points at it, while
                    // a reparented child pointed at the exiting process
                    // before the walk, so the lists cannot overlap.
                    let a = kids_all[k1a] as int;
                    let b = kids_all[k2a] as int;
                    assert(kmid.proc_of(a).inner.parent == Some(INIT_PID));
                    assert(b == kids0[k2a - old_kids.len()]);
                    if a == b {
                        assert(base.proc_of(b).inner.parent == Some(cur.pid));
                        assert(kmid.proc_of(b).inner.parent == Some(INIT_PID));
                        assert(k0.proc_of(b).inner.parent == Some(cur.pid));
                        assert(base.proc_of(a).inner.children@
                            == k0.proc_of(a).inner.children@);
                        // The old listing existed before the exit as well.
                        assert(k0.proc_of(INIT_PID as int).inner.children@[k1a]
                            == kids_all[k1a]);
                        assert(k0.proc_of(a).inner.parent == Some(INIT_PID));
                        assert(false);
                    }
                } else if k1a >= old_kids.len() {
                    assert(kids_all[k1a] == kids0[k1a - old_kids.len()]);
                    assert(kids_all[k2a] == kids0[k2a - old_kids.len()]);
                }
            }
            self.lemma_one_proc_updated(kmid, INIT_PID as int);
            // Walk the ensures back through the snapshots: the arena before
            // the reparenting walk, and the arena before the initial
            // process took the children over.
            assert(k0.processes@ == old(self).processes@);
            assert forall|j: int| 0 <= j < old(self).processes@.len()
                && j != cur.pid && j != INIT_PID && !kids0.contains(j as usize)
                implies self.processes@[j] == old(self).processes@[j] by {
                assert(base.processes@[j] == old(self).processes@[j]);
                assert(!(exists|kk: int| 0 <= kk < kids0.len() && kids0[kk] == j)) by {
                    if exists|kk: int| 0 <= kk < kids0.len() && kids0[kk] == j {
                        let kk = choose|kk: int| 0 <= kk < kids0.len() && kids0[kk] == j;
                        assert(kids0.contains(j as usize)) by {
                            assert(kids0[kk] == j as usize);
                        }
                    }
                }
                assert(kmid.processes@[j] == base.processes@[j]);
            }
            assert(self.proc_of(cur.pid as int) == kmid.proc_of(cur.pid as int));
            assert(self.proc_of(cur.pid as int).inner
                == base.proc_of(cur.pid as int).inner);
            assert forall|k: int| 0 <= k < kids0.len() implies {
                let c = (#[trigger] kids0[k]) as int;
                &&& self.proc_live(c)
                &&& self.proc_of(c).inner == (ProcessControlBlockInner {
                    parent: Some(INIT_PID),
                    ..old(self).proc_of(c).inner
                })
            } by {
                let c = kids0[k] as int;
                assert(kmid.proc_of(c) == (ProcessControlBlock {
                    inner: ProcessControlBlockInner {
                        parent: Some(INIT_PID),
                        ..base.proc_of(c).inner
                    },
                    ..base.proc_of(c)
                }));
                assert(base.processes@[c] == old(self).processes@[c]);
                assert(self.processes@[c] == kmid.processes@[c]);
            }
            assert(self.proc_of(INIT_PID as int).inner == (ProcessControlBlockInner {
                children: self.proc_of(INIT_PID as int).inner.children,
                ..old(self).proc_of(INIT_PID as int).inner
            })) by {
                assert(kmid.processes@[INIT_PID as int]
                    == base.processes@[INIT_PID as int]);
                assert(base.processes@[INIT_PID as int]
                    == old(self).processes@[INIT_PID as int]);
            }
        }
    }
}


impl Kernel {
    /// Creates a mutex in the current process's table: blocking when
    /// `blocking` is set, busy-wait otherwise. Returns the slot id or -1.
    pub fn sys_mutex_create(&mut self, blocking: bool) -> (r: isize)
        requires
            old(self).wf(),
            old(self).processor.current is Some,
        ensures
            final(self).wf(),
            final(self).processor.current == old(self).processor.current,
            final(self).task_manager == old(self).task_manager,
            final(self).processes@.len() == old(self).processes@.len(),
            forall|j: int| 0 <= j < old(self).processes@.len()
                && j != old(self).processor.current->0.pid
                ==> final(self).processes@[j] == old(self).processes@[j],
            ({
                let cur = old(self).processor.current->0;
                let p0 = old(self).proc_of(cur.pid as int).inner;
                let p1 = final(self).proc_of(cur.pid as int).inner;
                &&& p1.tasks@ == p0.tasks@
                &&& p1.semaphore_list@ == p0.semaphore_list@
                &&& p1.available_sem@ == p0.available_sem@
                &&& (r == -1 <==> (p0.mutex_list@.len() == RES_LIMIT
                    && forall|k: int| 0 <= k < p0.mutex_list@.len()
                        ==> p0.mutex_list@[k] is Some))
                &&& (r == -1 ==> p1 == p0)
                &&& (r != -1 ==> {
                    let id = r as int;
                    &&& 0 <= id < RES_LIMIT
                    &&& 0 <= id < p1.mutex_list@.len()
                    &&& p1.mutex_list@[id] is Some
                    &&& p1.available@ == p0.available@.update(id, 1)
                    &&& (match p1.mutex_list@[id]->0 {
                        crate::mutex::MutexKind::Spin(sp) => !blocking && !sp.locked,
                        crate::mutex::MutexKind::Blocking(b) => blocking && !b.inner.locked
                            && b.inner.wait_queue@.len() == 0,
                    })
                })
            }),
    {
        let cur = self.processor.current.unwrap();
        let ghost k0 = *self;
        let mut pcb = self.processes[cur.pid].take().unwrap();
        let r = pcb.inner.mutex_create(blocking);
        self.processes[cur.pid] = Some(pcb);
        proof {
            self.lemma_one_proc_updated(k0, cur.pid as int);
        }
        r
    }

    /// Creates a semaphore with `res_count` units in the current process's
    /// table. Returns the slot id or -1.
    pub fn sys_semaphore_create(&mut self, res_count: usize) -> (r: isize)
        requires
            old(self).wf(),
            old(self).processor.current is Some,
            res_count <= isize::MAX,
        ensures
            final(self).wf(),
            final(self).processor.current == old(self).processor.current,
            final(self).task_manager == old(self).task_manager,
            final(self).processes@.len() == old(self).processes@.len(),
            forall|j: int| 0 <= j < old(self).processes@.len()
                && j != old(self).processor.current->0.pid
                ==> final(self).processes@[j] == old(self).processes@[j],
            ({
                let cur = old(self).processor.current->0;
                let p0 = old(self).proc_of(cur.pid as int).inner;
                let p1 = final(self).proc_of(cur.pid as int).inner;
                &&& p1.tasks@ == p0.tasks@
                &&& p1.mutex_list@ == p0.mutex_list@
                &&& p1.available@ == p0.available@
                &&& (r == -1 <==> (p0.semaphore_list@.len() == RES_LIMIT
                    && forall|k: int| 0 <= k < p0.semaphore_list@.len()
                        ==> p0.semaphore_list@[k] is Some))
                &&& (r == -1 ==> p1 == p0)
                &&& (r != -1 ==> {
                    let id = r as int;
                    &&& 0 <= id < RES_LIMIT
                    &&& 0 <= id < p1.semaphore_list@.len()
                    &&& p1.semaphore_list@[id] is Some
                    &&& p1.available_sem@ == p0.available_sem@.update(id, res_count)
                    &&& ({
                        let sm = p1.semaphore_list@[id]->0;
                        &&& sm.inner.count == res_count
                        &&& sm.inner.wait_queue@.len() == 0
                        &&& sm.inner.cap@ == res_count
                        &&& p1.sem_accounting_exact(sm, id)
                    })
                })
            }),
    {
        let cur = self.processor.current.unwrap();
        let ghost k0 = *self;
        let mut pcb = self.processes[cur.pid].take().unwrap();
        let r = pcb.inner.semaphore_create(res_count);
        self.processes[cur.pid] = Some(pcb);
        proof {
            self.lemma_one_proc_updated(k0, cur.pid as int);
        }
        r
    }

    /// Turns deadlock detection on or off for the current process. Returns 0.
    pub fn sys_enable_deadlock_detect(&mut self, flag: bool) -> (r: isize)
        requires
            old(self).wf(),
            old(self).processor.current is Some,
        ensures
            final(self).wf(),
            final(self).processor.current == old(self).processor.current,
            final(self).task_manager == old(self).task_manager,
            final(self).pid_allocator == old(self).pid_allocator,
            final(self).processes@.len() == old(self).processes@.len(),
            forall|j: int| 0 <= j < old(self).processes@.len()
                && j != old(self).processor.current->0.pid
                ==> final(self).processes@[j] == old(self).processes@[j],
            ({
                let cur = old(self).processor.current->0;
                &&& final(self).proc_of(cur.pid as int) == (ProcessControlBlock {
                    inner: ProcessControlBlockInner {
                        deadlock_flag: flag,
                        ..old(self).proc_of(cur.pid as int).inner
                    },
                    ..old(self).proc_of(cur.pid as int)
                })
            }),
            r == 0,
    {
        let cur = self.processor.current.unwrap();
        let ghost k0 = *self;
        let mut pcb = self.processes[cur.pid].take().unwrap();
        pcb.inner.set_deadlock_flag(flag);
        self.processes[cur.pid] = Some(pcb);
        proof {
            crate::process::lemma_wf_unchanged_core(
                k0.proc_of(cur.pid as int).inner, self.proc_of(cur.pid as int).inner);
            self.lemma_one_proc_updated(k0, cur.pid as int);
        }
        0
    }

    /// Locks mutex `mutex_id` for the running task. On 0 the caller holds
    /// the mutex and keeps the processor; on `BLOCKED` the task was parked
    /// (busy-wait variant: requeued to retry) and the processor is free; on
    /// `DEADLOCK_ERR` the request was refused and the task keeps running.
    pub fn sys_mutex_lock(&mut self, mutex_id: usize) -> (r: isize)
        requires
            old(self).wf(),
            old(self).processor.current is Some,
            ({
                let p = old(self).proc_of(old(self).processor.current->0.pid as int).inner;
                &&& mutex_id < p.mutex_list@.len()
                &&& p.mutex_list@[mutex_id as int] is Some
                &&& (match p.mutex_list@[mutex_id as int]->0 {
                    crate::mutex::MutexKind::Blocking(b) => b.inner.locked
                        ==> p.task_of(old(self).processor.current->0.tid as int)
                            .needed@[mutex_id as int] < usize::MAX,
                    crate::mutex::MutexKind::Spin(_) => true,
                })
            }),
        ensures
            final(self).wf(),
            r == 0 || r == BLOCKED || r == DEADLOCK_ERR,
            (r == 0 || r == DEADLOCK_ERR
                ==> final(self).processor.current == old(self).processor.current),
            (r == BLOCKED ==> final(self).processor.current is None),
            final(self).processes@.len() == old(self).processes@.len(),
            forall|j: int| 0 <= j < old(self).processes@.len()
                && j != old(self).processor.current->0.pid
                ==> final(self).processes@[j] == old(self).processes@[j],
            ({
                let cur = old(self).processor.current->0;
                let p0 = old(self).proc_of(cur.pid as int).inner;
                let p1 = final(self).proc_of(cur.pid as int).inner;
                let t0 = p0.task_of(cur.tid as int);
                let t1 = p1.task_of(cur.tid as int);
                &&& final(self).proc_live(cur.pid as int)
                &&& p1.live(cur.tid as int)
                &&& t1.mutex_id == mutex_id
                &&& p1.semaphore_list@ == p0.semaphore_list@
                &&& p1.available_sem@ == p0.available_sem@
                &&& p1.mutex_list@[mutex_id as int] is Some
                &&& (forall|j: int| 0 <= j < p0.tasks@.len() && j != cur.tid
                    ==> p1.tasks@[j] == p0.tasks@[j])
                &&& match p0.mutex_list@[mutex_id as int]->0 {
                    crate::mutex::MutexKind::Spin(sp) => {
                        &&& r != DEADLOCK_ERR
                        &&& (r == 0 <==> !sp.locked)
                        &&& t1.allocated@ == t0.allocated@
                        &&& t1.needed@ == t0.needed@
                        &&& p1.available@ == p0.available@
                        &&& (match p1.mutex_list@[mutex_id as int]->0 {
                            crate::mutex::MutexKind::Spin(sp2) => sp2.locked,
                            crate::mutex::MutexKind::Blocking(_) => false,
                        })
                        &&& (r == 0 ==> t1.task_status is Running
                            && final(self).task_manager.ready_queue@
                                == old(self).task_manager.ready_queue@)
                        // Busy-wait contention: the task yields to retry and
                        // re-enters the ready queue at the back.
                        &&& (r == BLOCKED ==> t1.task_status is Ready
                            && final(self).task_manager.ready_queue@
                                == old(self).task_manager.ready_queue@.push(cur))
                    },
                    crate::mutex::MutexKind::Blocking(b) => {
                        &&& (r == 0 <==> !b.inner.locked)
                        &&& final(self).task_manager.ready_queue@
                            == old(self).task_manager.ready_queue@
                        &&& (match p1.mutex_list@[mutex_id as int]->0 {
                            crate::mutex::MutexKind::Spin(_) => false,
                            crate::mutex::MutexKind::Blocking(b1) => {
                                &&& b1.inner.locked
                                &&& (r == BLOCKED ==> b1.inner.wait_queue@
                                    == b.inner.wait_queue@.push(cur.tid))
                                &&& (r != BLOCKED ==> b1.inner.wait_queue@
                                    == b.inner.wait_queue@)
                            },
                        })
                        &&& (r == 0 ==> t1.allocated@ == t0.allocated@.update(
                                mutex_id as int,
                                (t0.allocated@[mutex_id as int] + 1) as usize)
                            && t1.needed@ == t0.needed@
                            && t1.task_status is Running
                            && p1.available@ == p0.available@.update(mutex_id as int, 0))
                        &&& (b.inner.locked ==> t1.needed@ == t0.needed@.update(
                                mutex_id as int,
                                (t0.needed@[mutex_id as int] + 1) as usize)
                            && t1.allocated@ == t0.allocated@
                            && p1.available@ == p0.available@
                            && (r == DEADLOCK_ERR <==> (p0.deadlock_flag
                                && !can_complete(p1.tasks@, p0.available@, false)))
                            && (r == DEADLOCK_ERR ==> t1.task_status is Running)
                            && (r == BLOCKED ==> t1.task_status is Blocked))
                    },
                }
            }),
    {
        let cur = self.processor.current.unwrap();
        let ghost k0 = *self;
        let mut pcb = self.processes[cur.pid].take().unwrap();
        let r = pcb.inner.mutex_lock(cur.tid, mutex_id);
        let still_running = match pcb.inner.get_task(cur.tid).task_status {
            crate::task::TaskStatus::Running => true,
            _ => false,
        };
        self.processes[cur.pid] = Some(pcb);
        if !still_running {
            self.processor.current = None;
            proof {
                let k0x = Kernel { processor: Processor { current: None }, ..k0 };
                assert(k0x.wf()) by {
                    assert forall|p2: int| #[trigger] k0x.proc_live(p2)
                        implies k0.proc_live(p2) && k0x.proc_of(p2) == k0.proc_of(p2) by {}
                }
                self.lemma_one_proc_updated(k0x, cur.pid as int);
            }
        } else {
            proof {
                self.lemma_one_proc_updated(k0, cur.pid as int);
            }
            if r == BLOCKED {
                // The busy-wait variant retries: yield and requeue.
                self.suspend_current_and_run_next();
            }
        }
        r
    }

    /// Unlocks mutex `mutex_id`, held by the running task (blocking
    /// variant). A woken waiter re-enters the ready queue at the back.
    pub fn sys_mutex_unlock(&mut self, mutex_id: usize) -> (r: isize)
        requires
            old(self).wf(),
            old(self).processor.current is Some,
            ({
                let p = old(self).proc_of(old(self).processor.current->0.pid as int).inner;
                &&& mutex_id < p.mutex_list@.len()
                &&& p.mutex_list@[mutex_id as int] is Some
                &&& (match p.mutex_list@[mutex_id as int]->0 {
                    crate::mutex::MutexKind::Blocking(b) => b.inner.locked
                        && p.task_of(old(self).processor.current->0.tid as int)
                            .allocated@[mutex_id as int] >= 1,
                    crate::mutex::MutexKind::Spin(_) => true,
                })
            }),
        ensures
            final(self).wf(),
            final(self).processor.current == old(self).processor.current,
            r == 0,
            final(self).processes@.len() == old(self).processes@.len(),
            forall|j: int| 0 <= j < old(self).processes@.len()
                && j != old(self).processor.current->0.pid
                ==> final(self).processes@[j] == old(self).processes@[j],
            ({
                let cur = old(self).processor.current->0;
                let p0 = old(self).proc_of(cur.pid as int).inner;
                let p1 = final(self).proc_of(cur.pid as int).inner;
                let t0 = p0.task_of(cur.tid as int);
                let t1 = p1.task_of(cur.tid as int);
                &&& final(self).proc_live(cur.pid as int)
                &&& p1.live(cur.tid as int)
                &&& p1.semaphore_list@ == p0.semaphore_list@
                &&& p1.available_sem@ == p0.available_sem@
                &&& p1.mutex_list@[mutex_id as int] is Some
                &&& match p0.mutex_list@[mutex_id as int]->0 {
                    crate::mutex::MutexKind::Spin(_) => {
                        &&& p1.tasks@ == p0.tasks@
                        &&& p1.available@ == p0.available@
                        &&& final(self).task_manager.ready_queue@
                            == old(self).task_manager.ready_queue@
                        &&& (match p1.mutex_list@[mutex_id as int]->0 {
                            crate::mutex::MutexKind::Spin(sp2) => !sp2.locked,
                            crate::mutex::MutexKind::Blocking(_) => false,
                        })
                    },
                    crate::mutex::MutexKind::Blocking(b) => {
                        let q = b.inner.wait_queue@;
                        &&& t1.allocated@ == t0.allocated@.update(
                            mutex_id as int,
                            (t0.allocated@[mutex_id as int] - 1) as usize)
                        &&& t1.task_status == t0.task_status
                        // A waiter takes the mutex over: the front of the
                        // queue becomes ready, holds the unit, and re-enters
                        // the ready queue at the back.
                        &&& (q.len() > 0 ==> {
                            let w = q[0] as int;
                            &&& w != cur.tid
                            &&& p1.live(w)
                            &&& p1.task_of(w).task_status is Ready
                            &&& p1.task_of(w).allocated@ == p0.task_of(w).allocated@
                                .update(mutex_id as int,
                                    (p0.task_of(w).allocated@[mutex_id as int] + 1) as usize)
                            &&& p1.task_of(w).needed@ == p0.task_of(w).needed@
                                .update(mutex_id as int,
                                    (p0.task_of(w).needed@[mutex_id as int] - 1) as usize)
                            &&& p1.available@ == p0.available@
                            &&& (match p1.mutex_list@[mutex_id as int]->0 {
                                crate::mutex::MutexKind::Spin(_) => false,
                                crate::mutex::MutexKind::Blocking(b1) => b1.inner.locked
                                    && b1.inner.wait_queue@
                                        == q.subrange(1, q.len() as int),
                            })
                            &&& final(self).task_manager.ready_queue@
                                == old(self).task_manager.ready_queue@.push(
                                    TaskRef { pid: cur.pid, tid: q[0] })
                        })
                        // Nobody waits: the unit returns to the free pool.
                        &&& (q.len() == 0 ==> {
                            &&& p1.available@ == p0.available@.update(mutex_id as int, 1)
                            &&& (match p1.mutex_list@[mutex_id as int]->0 {
                                crate::mutex::MutexKind::Spin(_) => false,
                                crate::mutex::MutexKind::Blocking(b1) => !b1.inner.locked
                                    && b1.inner.wait_queue@.len() == 0,
                            })
                            &&& final(self).task_manager.ready_queue@
                                == old(self).task_manager.ready_queue@
                        })
                    },
                }
            }),
    {
        let cur = self.processor.current.unwrap();
        let ghost k0 = *self;
        let mut pcb = self.processes[cur.pid].take().unwrap();
        let woken = pcb.inner.mutex_unlock(cur.tid, mutex_id);
        self.processes[cur.pid] = Some(pcb);
        proof {
            self.lemma_one_proc_updated(k0, cur.pid as int);
        }
        match woken {
            Some(wtid) => {
                let ghost k1 = *self;
                let wref = TaskRef { pid: cur.pid, tid: wtid };
                self.task_manager.add(wref);
                proof {
                    assert(k0.proc_of(cur.pid as int).inner.mutex_slot_ok(mutex_id as int));
                    assert(k0.status_of(wref) is Blocked);
                    assert forall|k: int| 0 <= k < k1.task_manager.ready_queue@.len()
                        implies k1.task_manager.ready_queue@[k] != wref by {
                        let r2 = k1.task_manager.ready_queue@[k];
                        assert(k0.task_live(r2) && k0.status_of(r2) is Ready);
                    }
                    self.lemma_enqueue_ready(k1, wref);
                }
            }
            None => {}
        }
        0
    }

    /// One `down` on semaphore `sem_id` by the running task; statuses as in
    /// `sys_mutex_lock`.
    pub fn sys_semaphore_down(&mut self, sem_id: usize) -> (r: isize)
        requires
            old(self).wf(),
            old(self).processor.current is Some,
            ({
                let p = old(self).proc_of(old(self).processor.current->0.pid as int).inner;
                &&& sem_id < p.semaphore_list@.len()
                &&& p.semaphore_list@[sem_id as int] is Some
                &&& p.semaphore_list@[sem_id as int]->0.inner.count > isize::MIN
                &&& p.task_of(old(self).processor.current->0.tid as int)
                    .needed_sem@[sem_id as int] < usize::MAX
            }),
        ensures
            final(self).wf(),
            r == 0 || r == BLOCKED || r == DEADLOCK_ERR,
            (r == 0 || r == DEADLOCK_ERR
                ==> final(self).processor.current == old(self).processor.current),
            (r == BLOCKED ==> final(self).processor.current is None),
            final(self).task_manager.ready_queue@ == old(self).task_manager.ready_queue@,
            final(self).processes@.len() == old(self).processes@.len(),
            forall|j: int| 0 <= j < old(self).processes@.len()
                && j != old(self).processor.current->0.pid
                ==> final(self).processes@[j] == old(self).processes@[j],
            ({
                let cur = old(self).processor.current->0;
                let p0 = old(self).proc_of(cur.pid as int).inner;
                let p1 = final(self).proc_of(cur.pid as int).inner;
                let t0 = p0.task_of(cur.tid as int);
                let t1 = p1.task_of(cur.tid as int);
                let s0 = p0.semaphore_list@[sem_id as int]->0;
                let s1 = p1.semaphore_list@[sem_id as int]->0;
                &&& final(self).proc_live(cur.pid as int)
                &&& p1.live(cur.tid as int)
                &&& t1.sem_id == sem_id
                &&& p1.mutex_list@ == p0.mutex_list@
                &&& p1.available@ == p0.available@
                &&& p1.semaphore_list@[sem_id as int] is Some
                &&& (forall|j: int| 0 <= j < p0.tasks@.len() && j != cur.tid
                    ==> p1.tasks@[j] == p0.tasks@[j])
                &&& s1.inner.count == s0.inner.count - 1
                &&& s1.inner.cap == s0.inner.cap
                &&& (r == 0 <==> s0.inner.count >= 1)
                &&& (r == 0 ==> t1.allocated_sem@ == t0.allocated_sem@.update(
                        sem_id as int, (t0.allocated_sem@[sem_id as int] + 1) as usize)
                    && t1.needed_sem@ == t0.needed_sem@
                    && t1.task_status is Running
                    && p1.available_sem@ == p0.available_sem@.update(
                        sem_id as int, (p0.available_sem@[sem_id as int] - 1) as usize)
                    && s1.inner.wait_queue@ == s0.inner.wait_queue@)
                &&& (s0.inner.count < 1 ==> t1.needed_sem@ == t0.needed_sem@.update(
                        sem_id as int, (t0.needed_sem@[sem_id as int] + 1) as usize)
                    && t1.allocated_sem@ == t0.allocated_sem@
                    && p1.available_sem@ == p0.available_sem@
                    && (r == DEADLOCK_ERR <==> (p0.deadlock_flag
                        && !can_complete(p1.tasks@, p0.available_sem@, true)))
                    && (r == DEADLOCK_ERR ==> t1.task_status is Running
                        && s1.inner.wait_queue@ == s0.inner.wait_queue@)
                    && (r == BLOCKED ==> t1.task_status is Blocked
                        && s1.inner.wait_queue@ == s0.inner.wait_queue@.push(cur.tid)))
                &&& (p0.sem_accounting_exact(s0, sem_id as int)
                    ==> p1.sem_accounting_exact(s1, sem_id as int))
            }),
    {
        let cur = self.processor.current.unwrap();
        let ghost k0 = *self;
        let mut pcb = self.processes[cur.pid].take().unwrap();
        let r = pcb.inner.semaphore_down(cur.tid, sem_id);
        let still_running = match pcb.inner.get_task(cur.tid).task_status {
            crate::task::TaskStatus::Running => true,
            _ => false,
        };
        self.processes[cur.pid] = Some(pcb);
        if !still_running {
            self.processor.current = None;
            proof {
                let k0x = Kernel { processor: Processor { current: None }, ..k0 };
                assert(k0x.wf()) by {
                    assert forall|p2: int| #[trigger] k0x.proc_live(p2)
                        implies k0.proc_live(p2) && k0x.proc_of(p2) == k0.proc_of(p2) by {}
                }
                self.lemma_one_proc_updated(k0x, cur.pid as int);
            }
        } else {
            proof {
                self.lemma_one_proc_updated(k0, cur.pid as int);
            }
        }
        r
    }

    /// One `up` on semaphore `sem_id` by the running task, which must hold a
    /// unit. A woken waiter re-enters the ready queue at the back.
    pub fn sys_semaphore_up(&mut self, sem_id: usize) -> (r: isize)
        requires
            old(self).wf(),
            old(self).processor.current is Some,
            ({
                let p = old(self).proc_of(old(self).processor.current->0.pid as int).inner;
                &&& sem_id < p.semaphore_list@.len()
                &&& p.semaphore_list@[sem_id as int] is Some
                &&& p.task_of(old(self).processor.current->0.tid as int)
                    .allocated_sem@[sem_id as int] >= 1
            }),
        ensures
            final(self).wf(),
            final(self).processor.current == old(self).processor.current,
            r == 0,
            final(self).processes@.len() == old(self).processes@.len(),
            forall|j: int| 0 <= j < old(self).processes@.len()
                && j != old(self).processor.current->0.pid
                ==> final(self).processes@[j] == old(self).processes@[j],
            ({
                let cur = old(self).processor.current->0;
                let p0 = old(self).proc_of(cur.pid as int).inner;
                let p1 = final(self).proc_of(cur.pid as int).inner;
                let t0 = p0.task_of(cur.tid as int);
                let t1 = p1.task_of(cur.tid as int);
                let s0 = p0.semaphore_list@[sem_id as int]->0;
                let s1 = p1.semaphore_list@[sem_id as int]->0;
                let q = s0.inner.wait_queue@;
                &&& final(self).proc_live(cur.pid as int)
                &&& p1.live(cur.tid as int)
                &&& p1.mutex_list@ == p0.mutex_list@
                &&& p1.available@ == p0.available@
                &&& p1.semaphore_list@[sem_id as int] is Some
                &&& s1.inner.count == s0.inner.count + 1
                &&& s1.inner.cap == s0.inner.cap
                &&& t1.allocated_sem@ == t0.allocated_sem@.update(
                    sem_id as int, (t0.allocated_sem@[sem_id as int] - 1) as usize)
                &&& t1.task_status == t0.task_status
                // The unit passes straight to the longest-blocked waiter,
                // which becomes ready and re-enters the ready queue.
                &&& ((s0.inner.count + 1 <= 0 && q.len() > 0) ==> {
                    let w = q[0] as int;
                    &&& w != cur.tid
                    &&& p1.live(w)
                    &&& p1.task_of(w).task_status is Ready
                    &&& p1.task_of(w).allocated_sem@ == p0.task_of(w).allocated_sem@
                        .update(sem_id as int,
                            (p0.task_of(w).allocated_sem@[sem_id as int] + 1) as usize)
                    &&& p1.task_of(w).needed_sem@ == p0.task_of(w).needed_sem@
                        .update(sem_id as int,
                            (p0.task_of(w).needed_sem@[sem_id as int] - 1) as usize)
                    &&& p1.available_sem@ == p0.available_sem@
                    &&& s1.inner.wait_queue@ == q.subrange(1, q.len() as int)
                    &&& final(self).task_manager.ready_queue@
                        == old(self).task_manager.ready_queue@.push(
                            TaskRef { pid: cur.pid, tid: q[0] })
                })
                &&& ((s0.inner.count + 1 <= 0 && q.len() == 0) ==> {
                    &&& p1.available_sem@ == p0.available_sem@
                    &&& s1.inner.wait_queue@ == q
                    &&& final(self).task_manager.ready_queue@
                        == old(self).task_manager.ready_queue@
                })
                &&& (s0.inner.count + 1 > 0 ==> {
                    &&& p1.available_sem@ == p0.available_sem@.update(
                        sem_id as int, (p0.available_sem@[sem_id as int] + 1) as usize)
                    &&& s1.inner.wait_queue@ == q
                    &&& final(self).task_manager.ready_queue@
                        == old(self).task_manager.ready_queue@
                })
                &&& ((p0.sem_accounting_exact(s0, sem_id as int)
                    && (s0.inner.count + 1 <= 0 ==> q.len() > 0))
                    ==> p1.sem_accounting_exact(s1, sem_id as int))
            }),
    {
        let cur = self.processor.current.unwrap();
        let ghost k0 = *self;
        let mut pcb = self.processes[cur.pid].take().unwrap();
        let woken = pcb.inner.semaphore_up(cur.tid, sem_id);
        self.processes[cur.pid] = Some(pcb);
        proof {
            self.lemma_one_proc_updated(k0, cur.pid as int);
        }
        match woken {
            Some(wtid) => {
                let ghost k1 = *self;
                let wref = TaskRef { pid: cur.pid, tid: wtid };
                self.task_manager.add(wref);
                proof {
                    assert(k0.proc_of(cur.pid as int).inner.sem_slot_ok(sem_id as int));
                    assert(k0.status_of(wref) is Blocked);
                    assert forall|k: int| 0 <= k < k1.task_manager.ready_queue@.len()
                        implies k1.task_manager.ready_queue@[k] != wref by {
                        let r2 = k1.task_manager.ready_queue@[k];
                        assert(k0.task_live(r2) && k0.status_of(r2) is Ready);
                    }
                    self.lemma_enqueue_ready(k1, wref);
                }
            }
            None => {}
        }
        0
    }
}

} // verus!
