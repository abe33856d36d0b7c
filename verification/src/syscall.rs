//! Process-management syscalls: the decision and bookkeeping half. Reading
//! arguments out of user memory and writing results back belong to the
//! excluded translation subsystem; these functions take and return plain
//! values.

use vstd::prelude::*;
use crate::INIT_PID;
use crate::kernel::Kernel;
use crate::task::{TaskControlBlock, TaskStatus};

verus! {

/// Wall-clock time split into seconds and microseconds.
#[derive(Clone, Copy, PartialEq, Eq, Structural, Debug)]
pub struct TimeVal {
    pub sec: usize,
    pub usec: usize,
}

impl TimeVal {
    /// Splits a microsecond count: `sec` whole seconds and the sub-second
    /// remainder in `usec`.
    pub fn from_us(us: usize) -> (t: TimeVal)
        ensures
            t.sec == us / 1_000_000,
            t.usec == us % 1_000_000,
            t.usec < 1_000_000,
    {
        TimeVal { sec: us / 1_000_000, usec: us % 1_000_000 }
    }
}

/// Snapshot of one task for the information syscall.
pub struct TaskInfo {
    /// Task status in its life cycle.
    pub status: TaskStatus,
    /// The number of times the task invoked each syscall.
    pub syscall_times: Vec<u32>,
    /// Total running time of the task, in milliseconds.
    pub time: usize,
}

impl TaskInfo {
    /// Assembles the information record of a task at time `now_ms`.
    pub fn new(task: &TaskControlBlock, now_ms: usize) -> (info: TaskInfo)
        requires
            task.wf(),
            task.start_time <= now_ms,
        ensures
            info.status == task.task_status,
            info.syscall_times@ == task.run_time@,
            info.time == now_ms - task.start_time,
    {
        let mut times: Vec<u32> = Vec::new();
        let mut s: usize = 0;
        while s < task.run_time.len()
            invariant
                task.wf(),
                s == times@.len(),
                s <= task.run_time@.len(),
                forall|k: int| 0 <= k < s ==> times@[k] == task.run_time@[k],
            decreases task.run_time@.len() - s,
        {
            times.push(task.run_time[s]);
            s = s + 1;
        }
        proof {
            assert(times@ =~= task.run_time@);
        }
        TaskInfo { status: task.task_status, syscall_times: times, time: now_ms - task.start_time }
    }
}

/// The running task exits with the given code: it becomes a zombie, its
/// children move to the initial process, and the processor is freed. The
/// original never returns from this call; here the kernel state transition
/// is the whole step.
pub fn sys_exit(kernel: &mut Kernel, exit_code: i32)
    requires
        old(kernel).wf(),
        old(kernel).processor.current is Some,
        old(kernel).processor.current->0.pid != INIT_PID,
        old(kernel).proc_live(INIT_PID as int),
    ensures
        final(kernel).wf(),
        final(kernel).processor.current is None,
        final(kernel).status_of(old(kernel).processor.current->0) is Zombie,
        final(kernel).proc_of(old(kernel).processor.current->0.pid as int).inner.exit_code
            == exit_code,
        final(kernel).proc_of(old(kernel).processor.current->0.pid as int)
            .inner.children@.len() == 0,
{
    kernel.exit_current_and_run_next(exit_code);
}

/// The running task gives up the processor for the other ready tasks and
/// re-enters the ready queue at the back. Returns 0.
pub fn sys_yield(kernel: &mut Kernel) -> (r: isize)
    requires
        old(kernel).wf(),
        old(kernel).processor.current is Some,
    ensures
        final(kernel).wf(),
        final(kernel).processor.current is None,
        final(kernel).task_manager.ready_queue@
            == old(kernel).task_manager.ready_queue@.push(old(kernel).processor.current->0),
        final(kernel).status_of(old(kernel).processor.current->0) is Ready,
        r == 0,
{
    kernel.suspend_current_and_run_next();
    0
}

/// Moves the current process's program break by `size` bytes. Returns the
/// old break, or -1 when the move would leave the heap's bounds. Remapping
/// the pages themselves belongs to the memory subsystem.
pub fn sys_sbrk(kernel: &mut Kernel, size: i32) -> (r: isize)
    requires
        old(kernel).wf(),
        old(kernel).processor.current is Some,
        old(kernel).proc_of(old(kernel).processor.current->0.pid as int)
            .inner.memory_set.program_brk <= isize::MAX,
    ensures
        final(kernel).wf(),
        final(kernel).processor.current == old(kernel).processor.current,
        final(kernel).task_manager == old(kernel).task_manager,
        ({
            let pid = old(kernel).processor.current->0.pid as int;
            let m0 = old(kernel).proc_of(pid).inner.memory_set;
            let m1 = final(kernel).proc_of(pid).inner.memory_set;
            let moved = m0.program_brk + size as int;
            if m0.heap_bottom <= moved <= usize::MAX {
                &&& r == m0.program_brk
                &&& m1.program_brk == moved
                &&& m1.heap_bottom == m0.heap_bottom
            } else {
                &&& r == -1
                &&& m1 == m0
            }
        }),
{
    let cur = kernel.processor.current.unwrap();
    let ghost k0 = *kernel;
    let mut pcb = kernel.processes[cur.pid].take().unwrap();
    let moved = pcb.inner.memory_set.change_program_brk(size);
    let r = match moved {
        Some(old_brk) => old_brk as isize,
        None => -1,
    };
    kernel.processes[cur.pid] = Some(pcb);
    proof {
        crate::process::lemma_wf_unchanged_core(
            k0.proc_of(cur.pid as int).inner, kernel.proc_of(cur.pid as int).inner);
        kernel.lemma_one_proc_updated(k0, cur.pid as int);
    }
    r
}


/// Page size of the address space.
pub const PAGE_SIZE: usize = 4096;

/// Length of a request rounded up to whole pages.
pub open spec fn page_rounded(len: usize) -> int {
    len + (if len % PAGE_SIZE == 0 { 0int } else { PAGE_SIZE - len % PAGE_SIZE })
}

/// The validation-and-rounding half of the mapping syscall: rejects an
/// unaligned start, permission bits outside the low three, or an empty
/// permission set, and rounds the length up to whole pages. Returns the
/// address range to map; checking the range is unused and installing the
/// pages belong to the memory subsystem. A request whose rounded end would
/// pass the top of the address space is rejected too.
pub fn mmap_request(start: usize, len: usize, port: usize) -> (r: Option<(usize, usize)>)
    ensures
        (r is Some <==> (start % PAGE_SIZE == 0
            && port & !0x7usize == 0
            && port & 0x7usize != 0
            && start + page_rounded(len) <= usize::MAX)),
        (r matches Some(range) ==> range.0 == start
            && range.1 == start + page_rounded(len)),
{
    if start % PAGE_SIZE != 0 || (port & !0x7) != 0 || (port & 0x7) == 0 {
        return None;
    }
    let m = len % PAGE_SIZE;
    let rounded = if m == 0 {
        len
    } else {
        if len > usize::MAX - (PAGE_SIZE - m) {
            return None;
        }
        len + (PAGE_SIZE - m)
    };
    if rounded > usize::MAX - start {
        return None;
    }
    Some((start, start + rounded))
}

/// The validation-and-rounding half of the unmapping syscall: rejects an
/// unaligned start and rounds the length up to whole pages. Returns the
/// address range to clear; checking that every page is mapped and removing
/// them belong to the memory subsystem.
pub fn munmap_request(start: usize, len: usize) -> (r: Option<(usize, usize)>)
    ensures
        (r is Some <==> (start % PAGE_SIZE == 0
            && start + page_rounded(len) <= usize::MAX)),
        (r matches Some(range) ==> range.0 == start
            && range.1 == start + page_rounded(len)),
{
    if start % PAGE_SIZE != 0 {
        return None;
    }
    let m = len % PAGE_SIZE;
    let rounded = if m == 0 {
        len
    } else {
        if len > usize::MAX - (PAGE_SIZE - m) {
            return None;
        }
        len + (PAGE_SIZE - m)
    };
    if rounded > usize::MAX - start {
        return None;
    }
    Some((start, start + rounded))
}

} // verus!
