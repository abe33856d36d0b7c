//! Condition variable: a FIFO wait queue of blocked tasks.

use vstd::prelude::*;
use std::collections::VecDeque;

verus! {

/// Condition variable.
pub struct Condvar {
    /// Thread ids blocked on this condition variable, in blocking order.
    pub wait_queue: VecDeque<usize>,
}

impl Condvar {
    /// Creates a condition variable with no waiters.
    pub fn new() -> (c: Condvar)
        ensures
            c.wait_queue@.len() == 0,
    {
        Condvar { wait_queue: VecDeque::new() }
    }
}

} // verus!
