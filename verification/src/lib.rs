//! Core of a cooperative single-core teaching kernel: task and process
//! lifecycle, FIFO scheduling, and lock/semaphore primitives with optional
//! deadlock detection.
//!
//! Hardware concerns (address-space construction, trap contexts, the raw
//! context switch) are outside this core; it consumes their results as plain
//! values and keeps all shared kernel state explicit.

use vstd::prelude::*;

pub mod accounting;
pub mod id;
pub mod kernel;
pub mod condvar;
pub mod deadlock;
pub mod mutex;
pub mod process;
pub mod semaphore;
pub mod syscall;
pub mod task;

verus! {

/// Number of resource slots a process tracks for each class of primitive.
pub const RES_LIMIT: usize = 100;

/// Highest syscall number tracked per task.
pub const MAX_SYSCALL_NUM: usize = 500;

/// Status a blocking operation returns when the caller would deadlock.
pub const DEADLOCK_ERR: isize = -0xdead;

/// Status a blocking operation returns when the caller was suspended: the
/// task was moved off the processor and resumes only when it is woken.
pub const BLOCKED: isize = 1;

/// Pid of the initial process; orphans are reparented to it.
pub const INIT_PID: usize = 0;

} // verus!
