//! Tests of the kernel lifecycle: spawning, scheduling, fork, exit with
//! reparenting, and the id allocator and syscall helpers.

use kernel_core::id::RecycleAllocator;
use kernel_core::kernel::{Kernel, TaskRef};
use kernel_core::process::{Image, MemorySet, ProcessControlBlock};
use kernel_core::syscall::{sys_exit, sys_sbrk, sys_yield, TaskInfo, TimeVal};
use kernel_core::task::{TaskControlBlock, TaskStatus};
use kernel_core::syscall::{mmap_request, munmap_request, PAGE_SIZE};
use kernel_core::INIT_PID;

fn image(token: usize) -> Image {
    Image { token, entry_point: 0x1000, ustack_base: 0x8000 }
}

fn booted_kernel() -> Kernel {
    // Boot: create the initial process and let it run.
    let mut k = Kernel::new();
    k.add_initproc(image(1), 0);
    let picked = k.run_next_task();
    assert_eq!(picked, Some(TaskRef { pid: INIT_PID, tid: 0 }));
    k
}

#[test]
fn allocator_reuses_smallest_freed_id() {
    let mut a = RecycleAllocator::new();
    assert_eq!(a.allocate(), 0);
    assert_eq!(a.allocate(), 1);
    assert_eq!(a.allocate(), 2);
    a.deallocate(2);
    a.deallocate(0);
    assert_eq!(a.allocate(), 0);
    assert_eq!(a.allocate(), 2);
    assert_eq!(a.allocate(), 3);
}

#[test]
fn alloc_fd_finds_lowest_free_slot() {
    let mut p = ProcessControlBlock::new(1, image(1), 0);
    // The three standard descriptors are installed.
    assert_eq!(p.inner.fd_table.len(), 3);
    assert_eq!(p.inner.fd_table[0], Some(0));
    assert_eq!(p.inner.fd_table[1], Some(1));
    assert_eq!(p.inner.fd_table[2], Some(1));
    assert_eq!(p.inner.alloc_fd(), 3);
    p.inner.fd_table[3] = Some(4);
    assert_eq!(p.inner.alloc_fd(), 4);
}

#[test]
fn tid_allocation_recycles() {
    let mut p = ProcessControlBlock::new(1, image(1), 0);
    assert_eq!(p.inner.thread_count(), 1);
    let t1 = p.inner.create_task(0);
    assert_eq!(t1, 1);
    p.inner.dealloc_tid(1);
    assert_eq!(p.inner.alloc_tid(), 1);
}

#[test]
fn timeval_splits_microseconds() {
    let t = TimeVal::from_us(3_250_042);
    assert_eq!(t.sec, 3);
    assert_eq!(t.usec, 250_042);
    let t0 = TimeVal::from_us(0);
    assert_eq!((t0.sec, t0.usec), (0, 0));
}

#[test]
fn task_info_reports_status_and_times() {
    let t = TaskControlBlock::new(100);
    let info = TaskInfo::new(&t, 350);
    assert_eq!(info.status, TaskStatus::Ready);
    assert_eq!(info.time, 250);
    assert_eq!(info.syscall_times.len(), kernel_core::MAX_SYSCALL_NUM);
    assert!(info.syscall_times.iter().all(|c| *c == 0));
}

#[test]
fn change_program_brk_moves_and_rejects() {
    let mut m = MemorySet::new(1, 0x8000);
    assert_eq!(m.change_program_brk(0x100), Some(0x8000));
    assert_eq!(m.program_brk, 0x8100);
    assert_eq!(m.change_program_brk(-0x80), Some(0x8100));
    assert_eq!(m.program_brk, 0x8080);
    // Shrinking below the heap bottom is refused and changes nothing.
    assert_eq!(m.change_program_brk(-0x1000), None);
    assert_eq!(m.program_brk, 0x8080);
}

#[test]
fn sys_sbrk_returns_old_break() {
    let mut k = booted_kernel();
    let r = sys_sbrk(&mut k, 0x100);
    assert_eq!(r, 0x8000);
    let r = sys_sbrk(&mut k, -0x200);
    assert_eq!(r, -1);
}

#[test]
fn sys_yield_requeues_at_back() {
    let mut k = booted_kernel();
    let r = k.new_process(Some(image(2)), 0);
    assert!(r > 0);
    let child = TaskRef { pid: r as usize, tid: 0 };
    assert_eq!(sys_yield(&mut k), 0);
    // FIFO: the earlier-queued child runs before the yielded init task.
    assert_eq!(k.run_next_task(), Some(child));
}

#[test]
fn run_next_task_is_fifo() {
    let mut k = booted_kernel();
    let a = k.new_process(Some(image(2)), 0) as usize;
    let b = k.new_process(Some(image(3)), 0) as usize;
    k.suspend_current_and_run_next();
    assert_eq!(k.run_next_task(), Some(TaskRef { pid: a, tid: 0 }));
    k.suspend_current_and_run_next();
    assert_eq!(k.run_next_task(), Some(TaskRef { pid: b, tid: 0 }));
}

#[test]
fn new_process_without_image_fails() {
    let mut k = booted_kernel();
    assert_eq!(k.new_process(None, 0), -1);
}

#[test]
fn fork_gives_fresh_accounting_and_shared_files() {
    let mut k = booted_kernel();
    // Give the parent a mutex and a held unit so the child provably does not
    // inherit it.
    {
        let pcb = k.processes[INIT_PID].as_mut().unwrap();
        let m = pcb.inner.mutex_create(true) as usize;
        assert_eq!(pcb.inner.mutex_lock(0, m), 0);
        pcb.inner.fd_table[2] = None;
        let fd = pcb.inner.alloc_fd();
        pcb.inner.fd_table[fd] = Some(9);
    }
    let child = k.fork(42, 5);
    let parent = k.processes[INIT_PID].as_ref().unwrap();
    let cpcb = k.processes[child].as_ref().unwrap();
    // Independent, zeroed resource accounting.
    assert!(cpcb.inner.available.iter().all(|v| *v == 0));
    assert!(cpcb.inner.available_sem.iter().all(|v| *v == 0));
    assert!(cpcb.inner.get_task(0).allocated.iter().all(|v| *v == 0));
    assert_eq!(cpcb.inner.mutex_list.len(), 0);
    // The descriptor table is a copy that names the same underlying files.
    assert_eq!(cpcb.inner.fd_table, parent.inner.fd_table);
    // The back-reference names the parent without owning it.
    assert_eq!(cpcb.inner.parent, Some(INIT_PID));
    assert!(parent.inner.children.contains(&child));
    assert_eq!(cpcb.inner.memory_set.token, 42);
    // The child's main thread is queued.
    assert_eq!(k.task_manager.ready_queue.back(), Some(&TaskRef { pid: child, tid: 0 }));
}

#[test]
fn exit_reparents_children_to_init() {
    let mut k = booted_kernel();
    // init spawns a child; the child runs and spawns two grandchildren.
    let c = k.new_process(Some(image(2)), 0) as usize;
    k.suspend_current_and_run_next();
    assert_eq!(k.run_next_task(), Some(TaskRef { pid: c, tid: 0 }));
    let g1 = k.new_process(Some(image(3)), 0) as usize;
    let g2 = k.new_process(Some(image(4)), 0) as usize;
    // The child exits: both grandchildren are handed to init.
    sys_exit(&mut k, 7);
    let cpcb = k.processes[c].as_ref().unwrap();
    assert!(cpcb.inner.is_zombie);
    assert_eq!(cpcb.inner.exit_code, 7);
    assert_eq!(cpcb.inner.get_task(0).task_status, TaskStatus::Zombie);
    assert!(cpcb.inner.children.is_empty());
    let init = k.processes[INIT_PID].as_ref().unwrap();
    assert!(init.inner.children.contains(&c));
    assert!(init.inner.children.contains(&g1));
    assert!(init.inner.children.contains(&g2));
    assert_eq!(k.processes[g1].as_ref().unwrap().inner.parent, Some(INIT_PID));
    assert_eq!(k.processes[g2].as_ref().unwrap().inner.parent, Some(INIT_PID));
}

#[test]
fn exec_replaces_image_and_keeps_process_state() {
    let mut p = ProcessControlBlock::new(3, image(1), 0);
    let fd = p.inner.alloc_fd();
    p.inner.fd_table[fd] = Some(5);
    p.exec(image(77));
    assert_eq!(p.getpid(), 3);
    assert_eq!(p.inner.memory_set.token, 77);
    assert_eq!(p.inner.get_user_token(), 77);
    assert_eq!(p.inner.fd_table[fd], Some(5));
    assert_eq!(p.inner.thread_count(), 1);
}

#[test]
fn add_syscall_counts_invocations() {
    let mut k = booted_kernel();
    k.add_syscall(64);
    k.add_syscall(64);
    k.add_syscall(93);
    let init = k.processes[INIT_PID].as_ref().unwrap();
    assert_eq!(init.inner.get_task(0).run_time[64], 2);
    assert_eq!(init.inner.get_task(0).run_time[93], 1);
}

#[test]
fn kernel_mutex_block_frees_processor_and_wake_requeues() {
    let mut k = booted_kernel();
    // A second thread in the initial process, made runnable.
    let helper = {
        let pcb = k.processes[INIT_PID].as_mut().unwrap();
        pcb.inner.create_task(0)
    };
    k.task_manager.add(TaskRef { pid: INIT_PID, tid: helper });
    let m = k.sys_mutex_create(true) as usize;
    assert_eq!(k.sys_mutex_lock(m), 0);
    // Switch to the helper, which blocks on the held mutex.
    assert_eq!(sys_yield(&mut k), 0);
    assert_eq!(k.run_next_task(), Some(TaskRef { pid: INIT_PID, tid: helper }));
    assert_eq!(k.sys_mutex_lock(m), kernel_core::BLOCKED);
    assert!(k.processor.current.is_none());
    // The main thread runs again and unlocks: the helper is woken, holds the
    // mutex and re-enters the ready queue at the back.
    assert_eq!(k.run_next_task(), Some(TaskRef { pid: INIT_PID, tid: 0 }));
    assert_eq!(k.sys_mutex_unlock(m), 0);
    assert_eq!(
        k.task_manager.ready_queue.back(),
        Some(&TaskRef { pid: INIT_PID, tid: helper })
    );
    let pcb = k.processes[INIT_PID].as_ref().unwrap();
    assert_eq!(pcb.inner.get_task(helper).allocated[m], 1);
    assert_eq!(pcb.inner.get_task(0).allocated[m], 0);
}

#[test]
fn kernel_semaphore_down_up_and_detection_flag() {
    let mut k = booted_kernel();
    assert_eq!(k.sys_enable_deadlock_detect(true), 0);
    let s = k.sys_semaphore_create(2) as usize;
    assert_eq!(k.sys_semaphore_down(s), 0);
    assert_eq!(k.sys_semaphore_down(s), 0);
    assert_eq!(k.sys_semaphore_up(s), 0);
    let pcb = k.processes[INIT_PID].as_ref().unwrap();
    assert!(pcb.inner.deadlock_flag);
    assert_eq!(pcb.inner.get_task(0).allocated_sem[s], 1);
    assert_eq!(pcb.inner.available_sem[s], 1);
}

#[test]
fn mmap_request_validates_and_rounds() {
    // Aligned start, read-write port, length rounded up to a whole page.
    assert_eq!(mmap_request(0x10000, 100, 0x3), Some((0x10000, 0x10000 + PAGE_SIZE)));
    // Exact multiple stays as it is.
    assert_eq!(
        mmap_request(0x10000, 2 * PAGE_SIZE, 0x1),
        Some((0x10000, 0x10000 + 2 * PAGE_SIZE))
    );
    // Unaligned start, bits above the permission mask, and no permissions.
    assert_eq!(mmap_request(0x10001, 100, 0x3), None);
    assert_eq!(mmap_request(0x10000, 100, 0x8), None);
    assert_eq!(mmap_request(0x10000, 100, 0x0), None);
    // A rounded end past the top of the address space is rejected.
    assert_eq!(mmap_request(usize::MAX - PAGE_SIZE + 1, 2 * PAGE_SIZE, 0x1), None);
}

#[test]
fn munmap_request_validates_and_rounds() {
    assert_eq!(munmap_request(0x20000, 1), Some((0x20000, 0x20000 + PAGE_SIZE)));
    assert_eq!(munmap_request(0x20000, 0), Some((0x20000, 0x20000)));
    assert_eq!(munmap_request(0x20004, 1), None);
}
