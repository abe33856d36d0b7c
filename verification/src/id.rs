//! Recycling allocator for small numeric ids (pids, thread ids, slots).

use vstd::prelude::*;

verus! {

/// Hands out the smallest free non-negative id, reusing freed ids before
/// issuing new ones.
pub struct RecycleAllocator {
    pub current: usize,
    pub recycled: Vec<usize>,
}

impl RecycleAllocator {
    /// Ids below `current` that are not in `recycled` are allocated.
    pub open spec fn is_allocated(self, id: int) -> bool {
        0 <= id < self.current && !self.recycled@.contains(id as usize)
    }

    pub open spec fn wf(self) -> bool {
        &&& forall|k: int| 0 <= k < self.recycled@.len() ==> #[trigger] self.recycled@[k] < self.current
        &&& forall|k1: int, k2: int|
            0 <= k1 < k2 < self.recycled@.len() ==> self.recycled@[k1] != self.recycled@[k2]
    }

    pub fn new() -> (a: RecycleAllocator)
        ensures
            a.wf(),
            a.current == 0,
            forall|id: int| !a.is_allocated(id),
    {
        RecycleAllocator { current: 0, recycled: Vec::new() }
    }

    /// Returns the smallest id that is not currently allocated.
    pub fn allocate(&mut self) -> (id: usize)
        requires
            old(self).wf(),
            old(self).current < usize::MAX,
        ensures
            final(self).wf(),
            !old(self).is_allocated(id as int),
            final(self).is_allocated(id as int),
            forall|j: int| 0 <= j < id ==> old(self).is_allocated(j),
            forall|j: int| j != id ==> final(self).is_allocated(j) == old(self).is_allocated(j),
    {
        if self.recycled.len() == 0 {
            let id = self.current;
            self.current = self.current + 1;
            assert(forall|j: int| j != id ==> self.is_allocated(j) == old(self).is_allocated(j));
            id
        } else {
            // Pick the smallest recycled id; every recycled id is below
            // `current`, so it is also the smallest free id overall.
            let mut best: usize = 0;
            let mut k: usize = 1;
            while k < self.recycled.len()
                invariant
                    self == old(self),
                    0 < self.recycled@.len(),
                    0 <= best < k <= self.recycled@.len(),
                    forall|m: int| 0 <= m < k ==> self.recycled@[best as int] <= #[trigger] self.recycled@[m],
                decreases self.recycled@.len() - k,
            {
                if self.recycled[k] < self.recycled[best] {
                    best = k;
                }
                k = k + 1;
            }
            let id = self.recycled[best];
            self.recycled.swap_remove(best);
            proof {
                let pre = old(self).recycled@;
                let post = self.recycled@;
                // swap_remove keeps exactly the other elements.
                assert(forall|v: usize| post.contains(v) ==> pre.contains(v)) by {
                    assert(forall|k2: int| 0 <= k2 < post.len() ==> {
                        let w = #[trigger] post[k2];
                        (if k2 < best { pre[k2] } else if k2 == best { pre[pre.len() - 1] } else { pre[k2] }) == w
                    });
                }
                assert(forall|v: usize| v != id && pre.contains(v) ==> post.contains(v)) by {
                    assert forall|v: usize| v != id && pre.contains(v) implies post.contains(v) by {
                        let k2 = choose|k2: int| 0 <= k2 < pre.len() && pre[k2] == v;
                        if k2 < best {
                            assert(post[k2] == v);
                        } else if k2 == best as int {
                            assert(false);
                        } else if k2 < pre.len() - 1 {
                            assert(post[k2] == v);
                        } else {
                            // v was the last element, which moved into `best`.
                            assert(post[best as int] == v);
                        }
                    }
                }
                assert(!post.contains(id)) by {
                    assert forall|k2: int| 0 <= k2 < post.len() implies post[k2] != id by {
                        if k2 < best {
                            assert(pre[k2] != id) by {
                                if pre[k2] == pre[best as int] {
                                    assert(false);
                                }
                            }
                        } else if k2 < post.len() {
                            if k2 == best as int {
                                assert(post[k2] == pre[pre.len() - 1]);
                                if pre.len() - 1 != best {
                                    assert(pre[pre.len() - 1] != pre[best as int]);
                                }
                            } else {
                                assert(pre[k2] != pre[best as int]);
                            }
                        }
                    }
                }
                assert(forall|j: int| 0 <= j < id ==> old(self).is_allocated(j)) by {
                    assert forall|j: int| 0 <= j < id implies old(self).is_allocated(j) by {
                        if pre.contains(j as usize) {
                            let k2 = choose|k2: int| 0 <= k2 < pre.len() && pre[k2] == j as usize;
                            assert(pre[best as int] <= pre[k2]);
                            assert(false);
                        }
                    }
                }
            }
            id
        }
    }

    /// Returns an allocated id to the free pool. Freeing an id twice is a
    /// caller contract violation, so it is excluded here.
    pub fn deallocate(&mut self, id: usize)
        requires
            old(self).wf(),
            old(self).is_allocated(id as int),
        ensures
            final(self).wf(),
            !final(self).is_allocated(id as int),
            forall|j: int| j != id ==> final(self).is_allocated(j) == old(self).is_allocated(j),
    {
        self.recycled.push(id);
        proof {
            let pre = old(self).recycled@;
            let post = self.recycled@;
            assert(post[post.len() - 1] == id);
            assert forall|v: usize| v != id implies post.contains(v) == pre.contains(v) by {
                if pre.contains(v) {
                    let k = choose|k: int| 0 <= k < pre.len() && pre[k] == v;
                    assert(post[k] == v);
                }
                if post.contains(v) {
                    let k = choose|k: int| 0 <= k < post.len() && post[k] == v;
                    assert(k < pre.len());
                    assert(pre[k] == v);
                }
            }
        }
    }
}

} // verus!
