//! Sums of per-task resource accounting, used to state the invariant that
//! `available[r]` plus the units held by all tasks equals a resource's
//! capacity.

use vstd::prelude::*;
use crate::task::TaskControlBlock;

verus! {

/// Units of resource `r` held by the task in `slot` (none for an empty slot).
/// `sem` selects the semaphore table instead of the mutex table.
pub open spec fn slot_allocated(slot: Option<TaskControlBlock>, r: int, sem: bool) -> nat {
    match slot {
        Some(t) => if sem { t.allocated_sem@[r] as nat } else { t.allocated@[r] as nat },
        None => 0,
    }
}

/// Units of resource `r` still requested by the task in `slot`.
pub open spec fn slot_needed(slot: Option<TaskControlBlock>, r: int, sem: bool) -> nat {
    match slot {
        Some(t) => if sem { t.needed_sem@[r] as nat } else { t.needed@[r] as nat },
        None => 0,
    }
}

/// Total units of resource `r` held across all task slots.
pub open spec fn sum_allocated(tasks: Seq<Option<TaskControlBlock>>, r: int, sem: bool) -> nat
    decreases tasks.len(),
{
    if tasks.len() == 0 {
        0
    } else {
        sum_allocated(tasks.drop_last(), r, sem) + slot_allocated(tasks.last(), r, sem)
    }
}

/// One slot's holding never exceeds the total.
pub proof fn lemma_sum_le(tasks: Seq<Option<TaskControlBlock>>, i: int, r: int, sem: bool)
    requires
        0 <= i < tasks.len(),
    ensures
        slot_allocated(tasks[i], r, sem) <= sum_allocated(tasks, r, sem),
    decreases tasks.len(),
{
    if i == tasks.len() - 1 {
    } else {
        lemma_sum_le(tasks.drop_last(), i, r, sem);
        assert(tasks.drop_last()[i] == tasks[i]);
    }
}

/// Two distinct slots together never exceed the total.
pub proof fn lemma_sum_pair(
    tasks: Seq<Option<TaskControlBlock>>,
    i: int,
    j: int,
    r: int,
    sem: bool,
)
    requires
        0 <= i < tasks.len(),
        0 <= j < tasks.len(),
        i != j,
    ensures
        slot_allocated(tasks[i], r, sem) + slot_allocated(tasks[j], r, sem)
            <= sum_allocated(tasks, r, sem),
    decreases tasks.len(),
{
    if i == tasks.len() - 1 {
        lemma_sum_le(tasks.drop_last(), j, r, sem);
        assert(tasks.drop_last()[j] == tasks[j]);
    } else if j == tasks.len() - 1 {
        lemma_sum_le(tasks.drop_last(), i, r, sem);
        assert(tasks.drop_last()[i] == tasks[i]);
    } else {
        lemma_sum_pair(tasks.drop_last(), i, j, r, sem);
        assert(tasks.drop_last()[i] == tasks[i]);
        assert(tasks.drop_last()[j] == tasks[j]);
    }
}

/// Replacing one slot changes the total by exactly the slot's difference.
pub proof fn lemma_sum_update(
    tasks: Seq<Option<TaskControlBlock>>,
    i: int,
    slot: Option<TaskControlBlock>,
    r: int,
    sem: bool,
)
    requires
        0 <= i < tasks.len(),
    ensures
        sum_allocated(tasks.update(i, slot), r, sem) + slot_allocated(tasks[i], r, sem)
            == sum_allocated(tasks, r, sem) + slot_allocated(slot, r, sem),
    decreases tasks.len(),
{
    let upd = tasks.update(i, slot);
    if i == tasks.len() - 1 {
        assert(upd.drop_last() =~= tasks.drop_last());
        assert(upd.last() == slot);
    } else {
        lemma_sum_update(tasks.drop_last(), i, slot, r, sem);
        assert(upd.drop_last() =~= tasks.drop_last().update(i, slot));
        assert(upd.last() == tasks.last());
    }
}

/// Appending empty slots leaves the total unchanged.
pub proof fn lemma_sum_extend_none(
    t1: Seq<Option<TaskControlBlock>>,
    t2: Seq<Option<TaskControlBlock>>,
    r: int,
    sem: bool,
)
    requires
        t2.len() >= t1.len(),
        forall|j: int| 0 <= j < t1.len() ==> t2[j] == t1[j],
        forall|j: int| t1.len() <= j < t2.len() ==> t2[j] is None,
    ensures
        sum_allocated(t2, r, sem) == sum_allocated(t1, r, sem),
    decreases t2.len() - t1.len(),
{
    if t2.len() == t1.len() {
        assert(t2 =~= t1);
    } else {
        lemma_sum_extend_none(t1, t2.drop_last(), r, sem);
    }
}


} // verus!
