//! Deadlock detector: resource-allocation-graph reachability over an
//! immutable snapshot of process state. A state is deadlock-free exactly
//! when some order lets every live task acquire what it still needs and then
//! return its holdings (`can_complete`); the detector decides that property.

use vstd::prelude::*;
use crate::RES_LIMIT;
use crate::accounting::{slot_allocated, slot_needed, sum_allocated, lemma_sum_update};
use crate::process::ProcessControlBlockInner;
use crate::task::TaskControlBlock;

verus! {

/// Every outstanding request of the task fits in the free units `work`.
pub open spec fn needs_met(slot: Option<TaskControlBlock>, work: Seq<nat>, sem: bool) -> bool {
    forall|r: int| 0 <= r < RES_LIMIT ==> slot_needed(slot, r, sem) <= work[r]
}

/// Free units after the task returns all its holdings.
pub open spec fn add_alloc(work: Seq<nat>, slot: Option<TaskControlBlock>, sem: bool) -> Seq<nat> {
    Seq::new(work.len(), |r: int| work[r] + slot_allocated(slot, r, sem))
}

/// The tasks listed in `order` can finish in that order, each finding its
/// needs within the units freed so far.
pub open spec fn order_ok(
    tasks: Seq<Option<TaskControlBlock>>,
    work: Seq<nat>,
    order: Seq<int>,
    sem: bool,
) -> bool
    decreases order.len(),
{
    order.len() == 0 || {
        let i = order[0];
        &&& 0 <= i < tasks.len()
        &&& tasks[i] is Some
        &&& needs_met(tasks[i], work, sem)
        &&& order_ok(tasks, add_alloc(work, tasks[i], sem), order.drop_first(), sem)
    }
}

/// The initially free units, as unbounded numbers.
pub open spec fn base_work(avail: Seq<usize>) -> Seq<nat> {
    Seq::new(avail.len(), |r: int| avail[r] as nat)
}

/// `order` names every live task once and lets them all finish.
pub open spec fn is_completion_order(
    tasks: Seq<Option<TaskControlBlock>>,
    avail: Seq<usize>,
    order: Seq<int>,
    sem: bool,
) -> bool {
    &&& order.no_duplicates()
    &&& order_ok(tasks, base_work(avail), order, sem)
    &&& forall|i: int| 0 <= i < tasks.len() && tasks[i] is Some ==> order.contains(i)
}

/// The state is free of deadlock: some order completes every live task.
pub open spec fn can_complete(
    tasks: Seq<Option<TaskControlBlock>>,
    avail: Seq<usize>,
    sem: bool,
) -> bool {
    exists|order: Seq<int>| is_completion_order(tasks, avail, order, sem)
}

/// Units of resource `r` held by the tasks listed in `idxs`.
pub open spec fn sum_over(
    tasks: Seq<Option<TaskControlBlock>>,
    idxs: Seq<int>,
    r: int,
    sem: bool,
) -> nat
    decreases idxs.len(),
{
    if idxs.len() == 0 {
        0
    } else {
        sum_over(tasks, idxs.drop_last(), r, sem) + slot_allocated(tasks[idxs.last()], r, sem)
    }
}

/// Free units after every task in `idxs` returned its holdings.
pub open spec fn work_of(
    tasks: Seq<Option<TaskControlBlock>>,
    w0: Seq<nat>,
    idxs: Seq<int>,
    sem: bool,
) -> Seq<nat> {
    Seq::new(w0.len(), |r: int| w0[r] + sum_over(tasks, idxs, r, sem))
}

/// Number of unmarked entries; the detector's termination measure.
pub open spec fn count_false(s: Seq<bool>) -> nat
    decreases s.len(),
{
    if s.len() == 0 {
        0
    } else {
        count_false(s.drop_last()) + (if s.last() { 0nat } else { 1nat })
    }
}

proof fn lemma_count_false_update(s: Seq<bool>, i: int)
    requires
        0 <= i < s.len(),
        !s[i],
    ensures
        count_false(s.update(i, true)) + 1 == count_false(s),
    decreases s.len(),
{
    let upd = s.update(i, true);
    if i == s.len() - 1 {
        assert(upd.drop_last() =~= s.drop_last());
    } else {
        lemma_count_false_update(s.drop_last(), i);
        assert(upd.drop_last() =~= s.drop_last().update(i, true));
        assert(upd.last() == s.last());
    }
}

proof fn lemma_sum_over_first(
    tasks: Seq<Option<TaskControlBlock>>,
    idxs: Seq<int>,
    r: int,
    sem: bool,
)
    requires
        idxs.len() > 0,
    ensures
        sum_over(tasks, idxs, r, sem)
            == slot_allocated(tasks[idxs[0]], r, sem) + sum_over(tasks, idxs.drop_first(), r, sem),
    decreases idxs.len(),
{
    if idxs.len() == 1 {
        assert(idxs.drop_first() =~= Seq::<int>::empty());
        assert(idxs.drop_last() =~= Seq::<int>::empty());
    } else {
        lemma_sum_over_first(tasks, idxs.drop_last(), r, sem);
        assert(idxs.drop_first().drop_last() =~= idxs.drop_last().drop_first());
        assert(idxs.drop_first().last() == idxs.last());
        assert(idxs.drop_last()[0] == idxs[0]);
    }
}

proof fn lemma_work_of_step(
    tasks: Seq<Option<TaskControlBlock>>,
    w0: Seq<nat>,
    idxs: Seq<int>,
    sem: bool,
)
    requires
        idxs.len() > 0,
        0 <= idxs[0] < tasks.len(),
    ensures
        work_of(tasks, w0, idxs, sem)
            == work_of(tasks, add_alloc(w0, tasks[idxs[0]], sem), idxs.drop_first(), sem),
{
    assert forall|r: int| 0 <= r < w0.len() implies work_of(tasks, w0, idxs, sem)[r]
        == work_of(tasks, add_alloc(w0, tasks[idxs[0]], sem), idxs.drop_first(), sem)[r] by {
        lemma_sum_over_first(tasks, idxs, r, sem);
    }
    assert(work_of(tasks, w0, idxs, sem)
        =~= work_of(tasks, add_alloc(w0, tasks[idxs[0]], sem), idxs.drop_first(), sem));
}

/// At each position of a feasible order, the task's needs fit within the
/// units freed by the tasks before it.
proof fn lemma_order_ok_at(
    tasks: Seq<Option<TaskControlBlock>>,
    w0: Seq<nat>,
    order: Seq<int>,
    j: int,
    sem: bool,
)
    requires
        order_ok(tasks, w0, order, sem),
        0 <= j < order.len(),
    ensures
        0 <= order[j] < tasks.len(),
        tasks[order[j]] is Some,
        needs_met(tasks[order[j]], work_of(tasks, w0, order.take(j), sem), sem),
    decreases j,
{
    if j == 0 {
        assert(order.take(0) =~= Seq::<int>::empty());
        assert(work_of(tasks, w0, order.take(0), sem) =~= w0);
    } else {
        lemma_work_of_step(tasks, w0, order, sem);
        lemma_order_ok_at(tasks, add_alloc(w0, tasks[order[0]], sem), order.drop_first(), j - 1, sem);
        assert(order.drop_first()[j - 1] == order[j]);
        assert(order.take(j).drop_first() =~= order.drop_first().take(j - 1));
        assert(order.take(j)[0] == order[0]);
        assert(order.take(j).len() > 0);
        lemma_work_of_step(tasks, w0, order.take(j), sem);
    }
}

/// A feasible order stays feasible when a task whose needs are met by the
/// final free units is appended.
proof fn lemma_order_ok_push(
    tasks: Seq<Option<TaskControlBlock>>,
    w0: Seq<nat>,
    order: Seq<int>,
    i: int,
    sem: bool,
)
    requires
        order_ok(tasks, w0, order, sem),
        0 <= i < tasks.len(),
        tasks[i] is Some,
        needs_met(tasks[i], work_of(tasks, w0, order, sem), sem),
    ensures
        order_ok(tasks, w0, order.push(i), sem),
    decreases order.len(),
{
    let p = order.push(i);
    if order.len() == 0 {
        assert(work_of(tasks, w0, order, sem) =~= w0);
        assert(p[0] == i);
        assert(p.drop_first() =~= Seq::<int>::empty());
        assert(order_ok(tasks, add_alloc(w0, tasks[p[0]], sem), p.drop_first(), sem));
        assert(order_ok(tasks, w0, p, sem));
    } else {
        assert(needs_met(tasks[order[0]], w0, sem));
        lemma_work_of_step(tasks, w0, order, sem);
        lemma_order_ok_push(tasks, add_alloc(w0, tasks[order[0]], sem), order.drop_first(), i, sem);
        assert(p.drop_first() =~= order.drop_first().push(i));
        assert(p[0] == order[0]);
        assert(order_ok(tasks, add_alloc(w0, tasks[p[0]], sem), p.drop_first(), sem));
        assert(order_ok(tasks, w0, p, sem));
    }
}

proof fn lemma_sum_over_remove(
    tasks: Seq<Option<TaskControlBlock>>,
    idxs: Seq<int>,
    k: int,
    r: int,
    sem: bool,
)
    requires
        0 <= k < idxs.len(),
    ensures
        sum_over(tasks, idxs, r, sem)
            == sum_over(tasks, idxs.remove(k), r, sem) + slot_allocated(tasks[idxs[k]], r, sem),
    decreases idxs.len(),
{
    if k == idxs.len() - 1 {
        assert(idxs.remove(k) =~= idxs.drop_last());
    } else {
        lemma_sum_over_remove(tasks, idxs.drop_last(), k, r, sem);
        assert(idxs.remove(k).drop_last() =~= idxs.drop_last().remove(k));
        assert(idxs.remove(k).last() == idxs.last());
        assert(idxs.drop_last()[k] == idxs[k]);
    }
}

/// Holdings summed over a set of tasks grow with the set.
proof fn lemma_sum_over_subset(
    tasks: Seq<Option<TaskControlBlock>>,
    a: Seq<int>,
    b: Seq<int>,
    r: int,
    sem: bool,
)
    requires
        a.no_duplicates(),
        b.no_duplicates(),
        forall|x: int| a.contains(x) ==> b.contains(x),
    ensures
        sum_over(tasks, a, r, sem) <= sum_over(tasks, b, r, sem),
    decreases a.len(),
{
    if a.len() > 0 {
        let x = a.last();
        assert(a.contains(x));
        let k = choose|k: int| 0 <= k < b.len() && b[k] == x;
        lemma_sum_over_remove(tasks, b, k, r, sem);
        let b2 = b.remove(k);
        assert(b2.no_duplicates());
        assert(a.drop_last().no_duplicates());
        assert forall|y: int| a.drop_last().contains(y) implies b2.contains(y) by {
            let j = choose|j: int| 0 <= j < a.len() - 1 && a[j] == y;
            assert(a.contains(y));
            assert(y != x);
            let j2 = choose|j2: int| 0 <= j2 < b.len() && b[j2] == y;
            if j2 < k {
                assert(b2[j2] == y);
            } else {
                assert(b2[j2 - 1] == y);
            }
        }
        lemma_sum_over_subset(tasks, a.drop_last(), b2, r, sem);
    }
}

proof fn lemma_sum_over_agree(
    tasks1: Seq<Option<TaskControlBlock>>,
    tasks2: Seq<Option<TaskControlBlock>>,
    idxs: Seq<int>,
    r: int,
    sem: bool,
)
    requires
        forall|k: int| 0 <= k < idxs.len() ==> {
            let x = #[trigger] idxs[k];
            &&& 0 <= x < tasks1.len()
            &&& 0 <= x < tasks2.len()
            &&& tasks1[x] == tasks2[x]
        },
    ensures
        sum_over(tasks1, idxs, r, sem) == sum_over(tasks2, idxs, r, sem),
    decreases idxs.len(),
{
    if idxs.len() > 0 {
        lemma_sum_over_agree(tasks1, tasks2, idxs.drop_last(), r, sem);
    }
}

/// Holdings summed over distinct live tasks never exceed the total holdings.
proof fn lemma_sum_over_le_total(
    tasks: Seq<Option<TaskControlBlock>>,
    idxs: Seq<int>,
    r: int,
    sem: bool,
)
    requires
        idxs.no_duplicates(),
        forall|k: int| 0 <= k < idxs.len() ==> 0 <= #[trigger] idxs[k] < tasks.len(),
    ensures
        sum_over(tasks, idxs, r, sem) <= sum_allocated(tasks, r, sem),
    decreases idxs.len(),
{
    if idxs.len() > 0 {
        let x = idxs.last();
        let tasks2 = tasks.update(x, None);
        lemma_sum_over_agree(tasks, tasks2, idxs.drop_last(), r, sem);
        lemma_sum_over_le_total(tasks2, idxs.drop_last(), r, sem);
        lemma_sum_update(tasks, x, None, r, sem);
    }
}

proof fn lemma_needs_met_mono(
    slot: Option<TaskControlBlock>,
    w1: Seq<nat>,
    w2: Seq<nat>,
    sem: bool,
)
    requires
        needs_met(slot, w1, sem),
        w1.len() >= RES_LIMIT,
        w2.len() >= RES_LIMIT,
        forall|r: int| 0 <= r < RES_LIMIT ==> w1[r] <= w2[r],
    ensures
        needs_met(slot, w2, sem),
{
}

/// At a fixpoint of the marking loop, every task of any feasible order is
/// already marked: an unmarked live task therefore refutes feasibility.
proof fn lemma_fixpoint_covers(
    tasks: Seq<Option<TaskControlBlock>>,
    avail: Seq<usize>,
    check: Seq<bool>,
    marked: Seq<int>,
    ostar: Seq<int>,
    j: int,
    sem: bool,
)
    requires
        avail.len() == RES_LIMIT,
        check.len() == tasks.len(),
        marked.no_duplicates(),
        forall|i: int| 0 <= i < tasks.len() ==> ((#[trigger] check[i]) <==> marked.contains(i)),
        forall|i: int| 0 <= i < tasks.len() && tasks[i] is Some && !(#[trigger] check[i])
            ==> !needs_met(tasks[i], work_of(tasks, base_work(avail), marked, sem), sem),
        ostar.no_duplicates(),
        order_ok(tasks, base_work(avail), ostar, sem),
        0 <= j <= ostar.len(),
    ensures
        forall|k: int| 0 <= k < j ==> check[ostar[k]],
    decreases j,
{
    if j > 0 {
        lemma_fixpoint_covers(tasks, avail, check, marked, ostar, j - 1, sem);
        let i = ostar[j - 1];
        lemma_order_ok_at(tasks, base_work(avail), ostar, j - 1, sem);
        let prefix = ostar.take(j - 1);
        assert(prefix.no_duplicates());
        assert forall|x: int| prefix.contains(x) implies marked.contains(x) by {
            let k = choose|k: int| 0 <= k < prefix.len() && prefix[k] == x;
            lemma_order_ok_at(tasks, base_work(avail), ostar, k, sem);
            assert(check[ostar[k]]);
        }
        let wp = work_of(tasks, base_work(avail), prefix, sem);
        let wm = work_of(tasks, base_work(avail), marked, sem);
        assert forall|r: int| 0 <= r < RES_LIMIT implies wp[r] <= wm[r] by {
            lemma_sum_over_subset(tasks, prefix, marked, r, sem);
        }
        lemma_needs_met_mono(tasks[i], wp, wm, sem);
        assert(check[i]);
    }
}

/// Slot-for-slot agreement of liveness and accounting between two snapshots.
pub open spec fn snapshots_agree(
    tasks1: Seq<Option<TaskControlBlock>>,
    tasks2: Seq<Option<TaskControlBlock>>,
    sem: bool,
) -> bool {
    &&& tasks1.len() == tasks2.len()
    &&& forall|j: int| 0 <= j < tasks1.len()
        ==> ((#[trigger] tasks1[j]) is Some <==> tasks2[j] is Some)
    &&& forall|j: int, r: int| 0 <= j < tasks1.len()
        ==> #[trigger] slot_needed(tasks1[j], r, sem) == slot_needed(tasks2[j], r, sem)
            && slot_allocated(tasks1[j], r, sem) == slot_allocated(tasks2[j], r, sem)
}

proof fn lemma_order_ok_agree(
    tasks1: Seq<Option<TaskControlBlock>>,
    tasks2: Seq<Option<TaskControlBlock>>,
    w: Seq<nat>,
    order: Seq<int>,
    sem: bool,
)
    requires
        snapshots_agree(tasks1, tasks2, sem),
        order_ok(tasks1, w, order, sem),
    ensures
        order_ok(tasks2, w, order, sem),
    decreases order.len(),
{
    if order.len() > 0 {
        let i = order[0];
        assert(needs_met(tasks2[i], w, sem)) by {
            assert forall|r: int| 0 <= r < RES_LIMIT
                implies slot_needed(tasks2[i], r, sem) <= w[r] by {
                assert(slot_needed(tasks1[i], r, sem) <= w[r]);
            }
        }
        assert(add_alloc(w, tasks2[i], sem) =~= add_alloc(w, tasks1[i], sem)) by {
            assert forall|r: int| 0 <= r < w.len()
                implies add_alloc(w, tasks2[i], sem)[r] == add_alloc(w, tasks1[i], sem)[r] by {
                assert(slot_needed(tasks1[i], r, sem) == slot_needed(tasks2[i], r, sem));
                assert(slot_allocated(tasks1[i], r, sem) == slot_allocated(tasks2[i], r, sem));
            }
        }
        lemma_order_ok_agree(tasks1, tasks2, add_alloc(w, tasks1[i], sem), order.drop_first(), sem);
    }
}

/// Feasibility depends only on liveness and the resource vectors: two
/// snapshots that agree on those (say, before and after a status change)
/// are deadlock-free together.
pub proof fn lemma_can_complete_agree(
    tasks1: Seq<Option<TaskControlBlock>>,
    tasks2: Seq<Option<TaskControlBlock>>,
    avail: Seq<usize>,
    sem: bool,
)
    requires
        snapshots_agree(tasks1, tasks2, sem),
    ensures
        can_complete(tasks1, avail, sem) == can_complete(tasks2, avail, sem),
{
    assert(snapshots_agree(tasks2, tasks1, sem));
    if can_complete(tasks1, avail, sem) {
        let o = choose|o: Seq<int>| is_completion_order(tasks1, avail, o, sem);
        lemma_order_ok_agree(tasks1, tasks2, base_work(avail), o, sem);
        assert(is_completion_order(tasks2, avail, o, sem));
    }
    if can_complete(tasks2, avail, sem) {
        let o = choose|o: Seq<int>| is_completion_order(tasks2, avail, o, sem);
        lemma_order_ok_agree(tasks2, tasks1, base_work(avail), o, sem);
        assert(is_completion_order(tasks1, avail, o, sem));
    }
}

impl ProcessControlBlockInner {
    /// The free-unit table the detector reads for each resource class.
    pub open spec fn avail_of(self, sem: bool) -> Seq<usize> {
        if sem {
            self.available_sem@
        } else {
            self.available@
        }
    }

    /// What the detector needs of a snapshot: table lengths and enough head
    /// room that accumulating freed units cannot overflow.
    pub open spec fn detect_pre(self, sem: bool) -> bool {
        &&& self.available@.len() == RES_LIMIT
        &&& self.available_sem@.len() == RES_LIMIT
        &&& forall|i: int| #[trigger] self.live(i) ==> self.task_of(i).wf()
        &&& forall|r: int| 0 <= r < RES_LIMIT
            ==> self.avail_of(sem)[r] + sum_allocated(self.tasks@, r, sem) <= usize::MAX
    }

    /// A well-formed process is a fit snapshot for both detector instances.
    pub proof fn lemma_wf_detect_pre(self)
        requires
            self.wf(),
        ensures
            self.detect_pre(false),
            self.detect_pre(true),
    {
        assert forall|r: int| 0 <= r < RES_LIMIT
            implies self.available@[r] + sum_allocated(self.tasks@, r, false) <= usize::MAX by {
            assert(self.mutex_slot_ok(r));
        }
        assert forall|r: int| 0 <= r < RES_LIMIT
            implies self.available_sem@[r] + sum_allocated(self.tasks@, r, true) <= usize::MAX by {
            assert(self.sem_slot_ok(r));
        }
    }

    /// Marks tasks finishable until nothing changes (Banker's-style
    /// reachability); reports whether every live task was marked, which is
    /// exactly `can_complete`.
    #[verifier::loop_isolation(false)]
    #[verifier::rlimit(50)]
    fn detect(&self, sem: bool) -> (ok: bool)
        requires
            self.detect_pre(sem),
        ensures
            ok == can_complete(self.tasks@, self.avail_of(sem), sem),
    {
        let tasks = &self.tasks;
        let avail: &Vec<usize> = if sem { &self.available_sem } else { &self.available };
        let n = tasks.len();
        let mut check: Vec<bool> = Vec::new();
        let mut i: usize = 0;
        while i < n
            invariant
                i == check@.len(),
                i <= n,
                forall|k: int| 0 <= k < i ==> !(#[trigger] check@[k]),
            decreases n - i,
        {
            check.push(false);
            i = i + 1;
        }
        let mut work: Vec<usize> = Vec::new();
        let mut r: usize = 0;
        while r < RES_LIMIT
            invariant
                r == work@.len(),
                r <= RES_LIMIT,
                forall|k: int| 0 <= k < r ==> #[trigger] work@[k] == avail@[k],
            decreases RES_LIMIT - r,
        {
            work.push(avail[r]);
            r = r + 1;
        }
        let ghost mut order: Seq<int> = Seq::empty();
        let mut changed = true;
        proof {
            assert(work_of(tasks@, base_work(avail@), order, sem) =~= base_work(avail@));
        }
        while changed
            invariant
                check@.len() == n,
                work@.len() == RES_LIMIT,
                order.no_duplicates(),
                forall|k: int| 0 <= k < order.len()
                    ==> 0 <= #[trigger] order[k] < n && tasks@[order[k]] is Some,
                forall|i2: int| 0 <= i2 < n ==> ((#[trigger] check@[i2]) <==> order.contains(i2)),
                order_ok(tasks@, base_work(avail@), order, sem),
                forall|r2: int| 0 <= r2 < RES_LIMIT
                    ==> #[trigger] work@[r2] == work_of(tasks@, base_work(avail@), order, sem)[r2],
                !changed ==> (forall|j: int| 0 <= j < n && tasks@[j] is Some && !(#[trigger] check@[j])
                    ==> !needs_met(tasks@[j], work_of(tasks@, base_work(avail@), order, sem), sem)),
            decreases count_false(check@) + (if changed { 1int } else { 0int }),
        {
            changed = false;
            let ghost pass_count = count_false(check@);
            let mut i: usize = 0;
            while i < n
                invariant
                    i <= n,
                    check@.len() == n,
                    work@.len() == RES_LIMIT,
                    order.no_duplicates(),
                    forall|k: int| 0 <= k < order.len()
                        ==> 0 <= #[trigger] order[k] < n && tasks@[order[k]] is Some,
                    forall|i2: int| 0 <= i2 < n ==> ((#[trigger] check@[i2]) <==> order.contains(i2)),
                    order_ok(tasks@, base_work(avail@), order, sem),
                    forall|r2: int| 0 <= r2 < RES_LIMIT
                        ==> #[trigger] work@[r2] == work_of(tasks@, base_work(avail@), order, sem)[r2],
                    !changed ==> count_false(check@) == pass_count,
                    changed ==> count_false(check@) < pass_count,
                    !changed ==> (forall|j: int| 0 <= j < i && tasks@[j] is Some && !(#[trigger] check@[j])
                        ==> !needs_met(tasks@[j], work_of(tasks@, base_work(avail@), order, sem), sem)),
                decreases n - i,
            {
                let marked_already = check[i];
                if !marked_already && tasks[i].is_some() {
                    let t = tasks[i].as_ref().unwrap();
                    proof {
                        assert(self.live(i as int));
                        assert(self.task_of(i as int).wf());
                    }
                    let needs: &Vec<usize> = if sem { &t.needed_sem } else { &t.needed };
                    let mut met = true;
                    let mut r: usize = 0;
                    while r < RES_LIMIT
                        invariant
                            r <= RES_LIMIT,
                            met <==> (forall|r2: int| 0 <= r2 < r
                                ==> slot_needed(tasks@[i as int], r2, sem) <= #[trigger] work@[r2]),
                        decreases RES_LIMIT - r,
                    {
                        if needs[r] > work[r] {
                            met = false;
                        }
                        r = r + 1;
                    }
                    if met {
                        proof {
                            assert forall|r2: int| 0 <= r2 < RES_LIMIT
                                implies slot_needed(tasks@[i as int], r2, sem)
                                    <= work_of(tasks@, base_work(avail@), order, sem)[r2] by {
                                assert(slot_needed(tasks@[i as int], r2, sem) <= work@[r2]);
                            }
                            assert(needs_met(
                                tasks@[i as int],
                                work_of(tasks@, base_work(avail@), order, sem),
                                sem,
                            ));
                            lemma_order_ok_push(tasks@, base_work(avail@), order, i as int, sem);
                            lemma_count_false_update(check@, i as int);
                        }
                        check.set(i, true);
                        let ghost old_order = order;
                        proof {
                            order = order.push(i as int);
                            assert forall|i2: int| 0 <= i2 < n
                                implies ((check@[i2]) <==> order.contains(i2)) by {
                                if i2 == i as int {
                                    assert(order[order.len() - 1] == i2);
                                } else {
                                    if order.contains(i2) {
                                        let k = choose|k: int| 0 <= k < order.len() && order[k] == i2;
                                        assert(old_order[k] == i2);
                                    }
                                    if old_order.contains(i2) {
                                        let k = choose|k: int|
                                            0 <= k < old_order.len() && old_order[k] == i2;
                                        assert(order[k] == i2);
                                    }
                                }
                            }
                        }
                        let allocs: &Vec<usize> = if sem { &t.allocated_sem } else { &t.allocated };
                        let ghost work_pre = work@;
                        let mut r: usize = 0;
                        while r < RES_LIMIT
                            invariant
                                r <= RES_LIMIT,
                                work@.len() == RES_LIMIT,
                                forall|r2: int| 0 <= r2 < r ==> #[trigger] work@[r2]
                                    == work_pre[r2] + slot_allocated(tasks@[i as int], r2, sem),
                                forall|r2: int| r <= r2 < RES_LIMIT
                                    ==> #[trigger] work@[r2] == work_pre[r2],
                            decreases RES_LIMIT - r,
                        {
                            proof {
                                lemma_sum_over_le_total(tasks@, order, r as int, sem);
                                assert(sum_over(tasks@, order, r as int, sem)
                                    == sum_over(tasks@, old_order, r as int, sem)
                                        + slot_allocated(tasks@[i as int], r as int, sem)) by {
                                    assert(order.drop_last() =~= old_order);
                                }
                                assert(work@[r as int] == work_pre[r as int]);
                                assert(work_pre[r as int] == base_work(avail@)[r as int]
                                    + sum_over(tasks@, old_order, r as int, sem));
                                assert(avail@ == self.avail_of(sem));
                                assert(work@[r as int]
                                    + slot_allocated(tasks@[i as int], r as int, sem)
                                    <= avail@[r as int]
                                        + sum_allocated(tasks@, r as int, sem));
                                assert(allocs@[r as int]
                                    == slot_allocated(tasks@[i as int], r as int, sem));
                            }
                            work.set(r, work[r] + allocs[r]);
                            r = r + 1;
                        }
                        proof {
                            assert forall|r2: int| 0 <= r2 < RES_LIMIT implies work@[r2]
                                == work_of(tasks@, base_work(avail@), order, sem)[r2] by {
                                assert(order.drop_last() =~= old_order);
                            }
                        }
                        changed = true;
                    }
                }
                i = i + 1;
            }
        }
        // Fixpoint reached: a live unmarked task cannot finish under any
        // order, so the snapshot is deadlocked; if all are marked, the mark
        // order itself completes every live task.
        let mut i: usize = 0;
        while i < n
            invariant
                i <= n,
                forall|j: int| 0 <= j < i && tasks@[j] is Some ==> #[trigger] check@[j],
            decreases n - i,
        {
            if tasks[i].is_some() && !check[i] {
                proof {
                    if can_complete(self.tasks@, self.avail_of(sem), sem) {
                        let ostar = choose|o: Seq<int>|
                            is_completion_order(tasks@, avail@, o, sem);
                        lemma_fixpoint_covers(
                            tasks@, avail@, check@, order, ostar, ostar.len() as int, sem,
                        );
                        assert(ostar.contains(i as int));
                        let k = choose|k: int| 0 <= k < ostar.len() && ostar[k] == i as int;
                        assert(check@[ostar[k]]);
                        assert(false);
                    }
                }
                return false;
            }
            i = i + 1;
        }
        proof {
            assert forall|j: int| 0 <= j < tasks@.len() && tasks@[j] is Some
                implies order.contains(j) by {
                assert(check@[j]);
            }
            assert(is_completion_order(tasks@, avail@, order, sem));
            assert(avail@ == self.avail_of(sem));
        }
        true
    }

    /// Deadlock check over the mutex accounting: reports `true` when
    /// blocking is safe — always when detection is disabled, otherwise
    /// exactly when every live task can still finish.
    pub fn check_deadlock(&self) -> (ok: bool)
        requires
            self.detect_pre(false),
        ensures
            ok == (self.deadlock_flag ==> can_complete(self.tasks@, self.available@, false)),
    {
        if self.deadlock_flag {
            self.detect(false)
        } else {
            true
        }
    }

    /// Deadlock check over the semaphore accounting; same policy as
    /// `check_deadlock`.
    pub fn check_deadlock_sem(&self) -> (ok: bool)
        requires
            self.detect_pre(true),
        ensures
            ok == (self.deadlock_flag ==> can_complete(self.tasks@, self.available_sem@, true)),
    {
        if self.deadlock_flag {
            self.detect(true)
        } else {
            true
        }
    }
}

} // verus!
