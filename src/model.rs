use vstd::prelude::*;

use crate::layout::{size_class, AllocErr, Layout};
use crate::util::{is_pow2, lemma_round_up, round_up};

verus! {

/// The abstract state of a heap allocator.
pub struct HeapModel {
    /// Lowest address of the arena.
    pub start: int,
    /// Next untouched address of the arena.
    pub cursor: int,
    /// Exclusive upper bound of the arena.
    pub limit: int,
    /// For each size class, its chain of free blocks; the last element is the head.
    pub bins: Map<(int, int), Seq<usize>>,
    /// Every block ever carved from the arena, with its size class.
    pub blocks: Map<usize, (int, int)>,
    /// The blocks that are handed out and not released.
    pub live: Set<usize>,
    /// Bytes taken from the arena by each carving, padding included, in order.
    pub carved: Seq<int>,
}

/// The sum of a sequence.
pub open spec fn total(s: Seq<int>) -> int
    decreases s.len(),
{
    if s.len() == 0 {
        0
    } else {
        total(s.drop_last()) + s.last()
    }
}

/// Appending `x` adds `x` to the sum.
pub proof fn lemma_total_push(s: Seq<int>, x: int)
    ensures
        total(s.push(x)) == total(s) + x,
{
    assert(s.push(x).drop_last() =~= s);
}

/// Half-open byte ranges `[a, a + n)` and `[b, b + m)` share no byte.
pub open spec fn disjoint(a: int, n: int, b: int, m: int) -> bool {
    a + n <= b || b + m <= a
}

impl HeapModel {
    /// The free chain of class `c` (empty when the class has none yet).
    pub open spec fn chain(self, c: (int, int)) -> Seq<usize> {
        if self.bins.contains_key(c) {
            self.bins[c]
        } else {
            Seq::empty()
        }
    }

    /// A fresh allocator over `[start, end)`.
    pub open spec fn fresh(start: int, end: int) -> HeapModel {
        HeapModel {
            start,
            cursor: start,
            limit: end,
            bins: Map::empty(),
            blocks: Map::empty(),
            live: Set::empty(),
            carved: Seq::empty(),
        }
    }

    /// The block that a bump allocation of `layout` would start at.
    pub open spec fn bump_start(self, layout: Layout) -> int {
        round_up(self.cursor, layout.align as int)
    }

    /// What `allocate(layout)` returns in this state.
    pub open spec fn alloc_result(self, layout: Layout) -> Result<usize, AllocErr> {
        let c = size_class(layout);
        if !layout.is_supported() {
            Err(AllocErr::Unsupported { request: layout })
        } else if self.chain(c).len() > 0 {
            Ok(self.chain(c).last())
        } else if self.bump_start(layout) + c.0 <= self.limit {
            Ok(self.bump_start(layout) as usize)
        } else {
            Err(AllocErr::Exhausted { request: layout })
        }
    }

    /// The state after `allocate(layout)`.
    pub open spec fn alloc_next(self, layout: Layout) -> HeapModel {
        let c = size_class(layout);
        let a = self.bump_start(layout);
        if !layout.is_supported() {
            self
        } else if self.chain(c).len() > 0 {
            HeapModel {
                bins: self.bins.insert(c, self.chain(c).drop_last()),
                live: self.live.insert(self.chain(c).last()),
                ..self
            }
        } else if a + c.0 <= self.limit {
            HeapModel {
                cursor: a + c.0,
                blocks: self.blocks.insert(a as usize, c),
                live: self.live.insert(a as usize),
                carved: self.carved.push(a + c.0 - self.cursor),
                ..self
            }
        } else {
            self
        }
    }

    /// `release(ptr, layout)` is allowed: `ptr` is handed out, and `layout` is of its class.
    pub open spec fn can_release(self, ptr: usize, layout: Layout) -> bool {
        &&& self.live.contains(ptr)
        &&& self.blocks[ptr] == size_class(layout)
    }

    /// The state after `release(ptr, layout)`: `ptr` heads the chain of its class.
    pub open spec fn release_next(self, ptr: usize, layout: Layout) -> HeapModel {
        let c = size_class(layout);
        HeapModel {
            bins: self.bins.insert(c, self.chain(c).push(ptr)),
            live: self.live.remove(ptr),
            ..self
        }
    }

    /// The invariant of every reachable state.
    pub open spec fn inv(self) -> bool {
        &&& 0 <= self.start <= self.cursor <= self.limit <= usize::MAX
        &&& self.cursor == self.start + total(self.carved)
        &&& forall|a: usize| #[trigger]
            self.blocks.contains_key(a) ==> {
                let c = self.blocks[a];
                &&& self.start <= a
                &&& a + c.0 <= self.cursor
                &&& c.0 > 0
                &&& is_pow2(c.1)
                &&& (a as int) % c.1 == 0
            }
        &&& forall|a: usize, b: usize|
            #![trigger self.blocks[a], self.blocks[b]]
            self.blocks.contains_key(a) && self.blocks.contains_key(b) && a != b ==> disjoint(
                a as int,
                self.blocks[a].0,
                b as int,
                self.blocks[b].0,
            )
        &&& forall|a: usize| #[trigger] self.live.contains(a) ==> self.blocks.contains_key(a)
        &&& forall|c: (int, int), j: int|
            #![trigger self.bins[c][j]]
            self.bins.contains_key(c) && 0 <= j < self.bins[c].len() ==> {
                let a = self.bins[c][j];
                &&& self.blocks.contains_key(a)
                &&& self.blocks[a] == c
                &&& !self.live.contains(a)
            }
        &&& forall|c: (int, int)| #[trigger]
            self.bins.contains_key(c) ==> self.bins[c].no_duplicates()
    }
}

impl HeapModel {
    /// A fresh arena satisfies the invariant.
    pub proof fn lemma_fresh_inv(start: int, end: int)
        requires
            0 <= start <= end <= usize::MAX,
        ensures
            HeapModel::fresh(start, end).inv(),
    {
    }

    /// Every element of a chain is a block of that chain's class.
    pub proof fn lemma_chain_member(self, c: (int, int), j: int)
        requires
            self.inv(),
            0 <= j < self.chain(c).len(),
        ensures
            self.blocks.contains_key(self.chain(c)[j]),
            self.blocks[self.chain(c)[j]] == c,
            !self.live.contains(self.chain(c)[j]),
            self.chain(c)[j] + c.0 <= self.cursor,
    {
        assert(self.bins.contains_key(c));
        let a = self.bins[c][j];
        assert(self.blocks.contains_key(a));
    }

    /// `allocate` keeps the invariant.
    pub proof fn lemma_alloc_inv(self, layout: Layout)
        requires
            self.inv(),
        ensures
            self.alloc_next(layout).inv(),
    {
        let c = size_class(layout);
        let n = self.alloc_next(layout);
        if !layout.is_supported() {
        } else if self.chain(c).len() > 0 {
            let ch = self.chain(c);
            let top = ch.last();
            self.lemma_chain_member(c, ch.len() - 1);
            assert forall|d: (int, int), j: int|
                n.bins.contains_key(d) && 0 <= j < n.bins[d].len() implies {
                let a = #[trigger] n.bins[d][j];
                &&& n.blocks.contains_key(a)
                &&& n.blocks[a] == d
                &&& !n.live.contains(a)
            } by {
                if d == c {
                    assert(n.bins[d][j] == ch[j]);
                    self.lemma_chain_member(c, j);
                    assert(ch[j] != top);
                } else {
                    assert(n.bins[d][j] == self.bins[d][j]);
                }
            }
            assert forall|d: (int, int)| #[trigger] n.bins.contains_key(d) implies n.bins[
                d
            ].no_duplicates() by {
                if d == c {
                    assert(self.bins[c].no_duplicates());
                    assert forall|i: int, j: int|
                        0 <= i < n.bins[d].len() && 0 <= j < n.bins[d].len() && i != j implies n.bins[
                        d
                    ][i] != n.bins[d][j] by {
                        assert(n.bins[d][i] == ch[i]);
                        assert(n.bins[d][j] == ch[j]);
                    }
                }
            }
        } else {
            let a = self.bump_start(layout);
            lemma_round_up(self.cursor, layout.align as int);
            if a + c.0 <= self.limit {
                lemma_round_up(layout.size as int, layout.align as int);
                lemma_total_push(self.carved, a + c.0 - self.cursor);
                let au = a as usize;
                assert(!self.blocks.contains_key(au));
                assert forall|x: usize| #[trigger] n.blocks.contains_key(x) implies {
                    let d = n.blocks[x];
                    &&& n.start <= x
                    &&& x + d.0 <= n.cursor
                    &&& d.0 > 0
                    &&& is_pow2(d.1)
                    &&& (x as int) % d.1 == 0
                } by {
                    if x != au {
                        assert(self.blocks.contains_key(x));
                    }
                }
                assert forall|x: usize, y: usize|
                    #![trigger n.blocks[x], n.blocks[y]]
                    n.blocks.contains_key(x) && n.blocks.contains_key(y) && x != y implies disjoint(
                    x as int,
                    n.blocks[x].0,
                    y as int,
                    n.blocks[y].0,
                ) by {
                    if x == au {
                        assert(self.blocks.contains_key(y));
                    } else if y == au {
                        assert(self.blocks.contains_key(x));
                    } else {
                        assert(self.blocks[x] == n.blocks[x] && self.blocks[y] == n.blocks[y]);
                    }
                }
                assert forall|d: (int, int), j: int|
                    n.bins.contains_key(d) && 0 <= j < n.bins[d].len() implies {
                    let x = #[trigger] n.bins[d][j];
                    &&& n.blocks.contains_key(x)
                    &&& n.blocks[x] == d
                    &&& !n.live.contains(x)
                } by {
                    self.lemma_chain_member(d, j);
                }
            }
        }
    }

    /// `release` keeps the invariant when its precondition holds.
    pub proof fn lemma_release_inv(self, ptr: usize, layout: Layout)
        requires
            self.inv(),
            self.can_release(ptr, layout),
        ensures
            self.release_next(ptr, layout).inv(),
    {
        let c = size_class(layout);
        let n = self.release_next(ptr, layout);
        let ch = self.chain(c);
        assert forall|d: (int, int), j: int|
            n.bins.contains_key(d) && 0 <= j < n.bins[d].len() implies {
            let x = #[trigger] n.bins[d][j];
            &&& n.blocks.contains_key(x)
            &&& n.blocks[x] == d
            &&& !n.live.contains(x)
        } by {
            if d == c {
                if j < ch.len() {
                    self.lemma_chain_member(c, j);
                }
            } else {
                assert(n.bins[d][j] == self.bins[d][j]);
            }
        }
        assert forall|d: (int, int)| #[trigger] n.bins.contains_key(d) implies n.bins[
            d
        ].no_duplicates() by {
            if d == c {
                assert forall|i: int, j: int|
                    0 <= i < n.bins[d].len() && 0 <= j < n.bins[d].len() && i != j implies n.bins[
                    d
                ][i] != n.bins[d][j] by {
                    if i < ch.len() {
                        self.lemma_chain_member(c, i);
                    }
                    if j < ch.len() {
                        self.lemma_chain_member(c, j);
                    }
                    if i < ch.len() && j < ch.len() {
                        assert(self.bins[c].no_duplicates());
                    }
                }
            }
        }
    }
}

} // verus!