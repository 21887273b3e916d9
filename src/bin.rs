use vstd::prelude::*;

use crate::layout::{size_class, AllocErr, Layout};
use crate::guarantees::lemma_allocation_fits;
use crate::model::{disjoint, HeapModel};
use crate::util::{align_up, is_power_of_two, lemma_round_up};

verus! {

/// The free chain of one size class.
struct Bin {
    size: usize,
    align: usize,
    chain: Vec<usize>,
}

spec fn key(b: Bin) -> (int, int) {
    (b.size as int, b.align as int)
}

/// A heap allocator over a fixed address range: a bump arena, and one free chain per
/// size class from which released blocks are reused, the most recently released first.
/// The chains are kept beside the arena rather than inside the released blocks, so a
/// class may be smaller than a machine word.
pub struct Allocator {
    bump_current: usize,
    bump_end: usize,
    bins: Vec<Bin>,
    model: Ghost<HeapModel>,
}

impl Allocator {
    /// The abstract state of this allocator.
    pub closed spec fn model(&self) -> HeapModel {
        self.model@
    }

    /// The concrete fields agree with the abstract state, which keeps its invariant.
    pub closed spec fn wf(&self) -> bool {
        let m = self.model@;
        &&& m.inv()
        &&& m.cursor == self.bump_current
        &&& m.limit == self.bump_end
        &&& forall|i: int|
            0 <= i < self.bins.len() ==> {
                &&& m.bins.contains_key(#[trigger] key(self.bins[i]))
                &&& m.bins[key(self.bins[i])] == self.bins[i].chain@
            }
        &&& forall|i: int, j: int|
            0 <= i < self.bins.len() && 0 <= j < self.bins.len() && i != j ==> key(
                #[trigger] self.bins[i],
            ) != key(#[trigger] self.bins[j])
        &&& forall|c: (int, int)| #[trigger]
            m.bins.contains_key(c) ==> exists|i: int|
                0 <= i < self.bins.len() && #[trigger] key(self.bins[i]) == c
    }

    /// Creates an allocator that hands out memory from the addresses `[start, end)`.
    pub fn new(start: usize, end: usize) -> (r: Allocator)
        requires
            start <= end,
        ensures
            r.wf(),
            r.model() == HeapModel::fresh(start as int, end as int),
    {
        proof {
            HeapModel::lemma_fresh_inv(start as int, end as int);
        }
        Allocator {
            bump_current: start,
            bump_end: end,
            bins: Vec::new(),
            model: Ghost(HeapModel::fresh(start as int, end as int)),
        }
    }

    /// The next untouched address of the arena.
    pub fn cursor(&self) -> (r: usize)
        requires
            self.wf(),
        ensures
            r == self.model().cursor,
    {
        self.bump_current
    }

    /// The index of the chain of class `(size, align)`, if there is one.
    fn find_bin(&self, size: usize, align: usize) -> (r: Option<usize>)
        requires
            self.wf(),
        ensures
            match r {
                Some(i) => i < self.bins.len() && key(self.bins[i as int]) == (
                size as int,
                align as int,
                ),
                None => !self.model().bins.contains_key((size as int, align as int)),
            },
    {
        let mut i: usize = 0;
        while i < self.bins.len()
            invariant
                i <= self.bins.len(),
                forall|k: int| 0 <= k < i ==> key(#[trigger] self.bins[k]) != (
                    size as int,
                    align as int,
                ),
            decreases self.bins.len() - i,
        {
            if self.bins[i].size == size && self.bins[i].align == align {
                return Some(i);
            }
            i = i + 1;
        }
        None
    }
    /// Allocates a block for `layout`: the head of the free chain of its size class
    /// when there is one, else fresh memory from the arena. The contents of a reused
    /// block are whatever was left in it.
    pub fn allocate(&mut self, layout: Layout) -> (r: Result<usize, AllocErr>)
        requires
            old(self).wf(),
        ensures
            final(self).wf(),
            r == old(self).model().alloc_result(layout),
            final(self).model() == old(self).model().alloc_next(layout),
            r matches Ok(a) ==> {
                &&& (a as int) % (layout.align as int) == 0
                &&& a + layout.size <= old(self).model().limit
                &&& forall|b: usize| #[trigger]
                    old(self).model().live.contains(b) ==> disjoint(
                        a as int,
                        layout.size as int,
                        b as int,
                        old(self).model().blocks[b].0,
                    )
            },
    {
        proof {
            lemma_allocation_fits(self.model@, layout);
        }
        if layout.size == 0 || !is_power_of_two(layout.align) {
            return Err(AllocErr::Unsupported { request: layout });
        }
        let ghost m = self.model@;
        let ghost c = size_class(layout);
        proof {
            lemma_round_up(layout.size as int, layout.align as int);
            m.lemma_alloc_inv(layout);
        }
        let class_size = match align_up(layout.size, layout.align) {
            Some(n) => n,
            None => {
                proof {
                    if m.chain(c).len() > 0 {
                        m.lemma_chain_member(c, m.chain(c).len() - 1);
                    }
                    lemma_round_up(m.cursor, layout.align as int);
                }
                return Err(AllocErr::Exhausted { request: layout });
            },
        };
        match self.find_bin(class_size, layout.align) {
            Some(i) => {
                if self.bins[i].chain.len() == 0 {
                    return self.bump_alloc(layout, class_size);
                }
                let addr = self.bins[i].chain.pop().unwrap();
                self.model = Ghost(m.alloc_next(layout));
                proof {
                    let n = self.model@;
                    assert(n.bins[c] == self.bins[i as int].chain@);
                    assert forall|k: int| 0 <= k < self.bins.len() implies {
                        &&& n.bins.contains_key(#[trigger] key(self.bins[k]))
                        &&& n.bins[key(self.bins[k])] == self.bins[k].chain@
                    } by {
                        if k != i {
                            assert(key(self.bins[k]) != key(self.bins[i as int]));
                        }
                    }
                    assert forall|d: (int, int)| #[trigger]
                        n.bins.contains_key(d) implies exists|k: int|
                        0 <= k < self.bins.len() && #[trigger] key(self.bins[k]) == d by {
                        assert(m.bins.contains_key(d));
                        let k = choose|k: int|
                            0 <= k < old(self).bins.len() && #[trigger] key(old(self).bins[k]) == d;
                        assert(key(self.bins[k]) == key(old(self).bins[k]));
                    }
                }
                Ok(addr)
            },
            None => self.bump_alloc(layout, class_size),
        }
    }

    /// Carves a block of `class_size` bytes, aligned as `layout` asks, from the arena.
    fn bump_alloc(&mut self, layout: Layout, class_size: usize) -> (r: Result<usize, AllocErr>)
        requires
            old(self).wf(),
            layout.is_supported(),
            class_size == size_class(layout).0,
            old(self).model().chain(size_class(layout)).len() == 0,
        ensures
            final(self).wf(),
            r == old(self).model().alloc_result(layout),
            final(self).model() == old(self).model().alloc_next(layout),
    {
        let ghost m = self.model@;
        proof {
            lemma_round_up(m.cursor, layout.align as int);
            m.lemma_alloc_inv(layout);
        }
        let ret = match align_up(self.bump_current, layout.align) {
            Some(a) => a,
            None => {
                return Err(AllocErr::Exhausted { request: layout });
            },
        };
        let alloc_end = ret.saturating_add(class_size);
        if alloc_end > self.bump_end || alloc_end - ret < class_size {
            Err(AllocErr::Exhausted { request: layout })
        } else {
            self.bump_current = alloc_end;
            self.model = Ghost(m.alloc_next(layout));
            Ok(ret)
        }
    }

    /// Releases the block at `ptr`, which then heads the free chain of its size class.
    /// The caller hands back a block that this allocator gave out for a request of the
    /// same class and that was not released since.
    pub fn dealloc(&mut self, ptr: usize, layout: Layout)
        requires
            old(self).wf(),
            old(self).model().can_release(ptr, layout),
        ensures
            final(self).wf(),
            final(self).model() == old(self).model().release_next(ptr, layout),
    {
        let ghost m = self.model@;
        let ghost c = size_class(layout);
        proof {
            m.lemma_release_inv(ptr, layout);
            assert(m.blocks.contains_key(ptr));
            assert(ptr + c.0 <= m.cursor);
        }
        let class_size = match align_up(layout.size, layout.align) {
            Some(n) => n,
            None => {
                // Not reached: a block of this class already lies inside the arena.
                proof {
                    lemma_round_up(layout.size as int, layout.align as int);
                }
                return;
            },
        };
        match self.find_bin(class_size, layout.align) {
            Some(i) => {
                self.bins[i].chain.push(ptr);
                self.model = Ghost(m.release_next(ptr, layout));
                proof {
                    let n = self.model@;
                    assert forall|k: int| 0 <= k < self.bins.len() implies {
                        &&& n.bins.contains_key(#[trigger] key(self.bins[k]))
                        &&& n.bins[key(self.bins[k])] == self.bins[k].chain@
                    } by {
                        if k != i {
                            assert(key(self.bins[k]) != key(self.bins[i as int]));
                        }
                    }
                    assert forall|d: (int, int)| #[trigger]
                        n.bins.contains_key(d) implies exists|k: int|
                        0 <= k < self.bins.len() && #[trigger] key(self.bins[k]) == d by {
                        if d == c {
                            assert(key(self.bins[i as int]) == d);
                        } else {
                            assert(m.bins.contains_key(d));
                            let k = choose|k: int|
                                0 <= k < old(self).bins.len() && #[trigger] key(old(self).bins[k]) == d;
                            assert(key(self.bins[k]) == key(old(self).bins[k]));
                        }
                    }
                }
            },
            None => {
                let mut chain: Vec<usize> = Vec::new();
                chain.push(ptr);
                self.bins.push(Bin { size: class_size, align: layout.align, chain });
                self.model = Ghost(m.release_next(ptr, layout));
                proof {
                    let n = self.model@;
                    let last = self.bins.len() - 1;
                    assert(chain@ =~= m.chain(c).push(ptr));
                    assert forall|k: int| 0 <= k < self.bins.len() implies {
                        &&& n.bins.contains_key(#[trigger] key(self.bins[k]))
                        &&& n.bins[key(self.bins[k])] == self.bins[k].chain@
                    } by {
                        if k != last {
                            assert(m.bins.contains_key(key(self.bins[k])));
                        }
                    }
                    assert forall|d: (int, int)| #[trigger]
                        n.bins.contains_key(d) implies exists|k: int|
                        0 <= k < self.bins.len() && #[trigger] key(self.bins[k]) == d by {
                        if d == c {
                            assert(key(self.bins[last]) == d);
                        } else {
                            assert(m.bins.contains_key(d));
                            let k = choose|k: int|
                                0 <= k < old(self).bins.len() && #[trigger] key(old(self).bins[k]) == d;
                            assert(key(self.bins[k]) == d);
                        }
                    }
                }
            },
        }
    }
}

} // verus!