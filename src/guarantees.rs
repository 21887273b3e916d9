use vstd::prelude::*;

use crate::layout::{size_class, AllocErr, Layout};
use crate::model::{disjoint, lemma_total_push, total, HeapModel};
use crate::util::{is_pow2, lemma_round_up, round_up};

verus! {

/// One call on an allocator.
pub enum HeapOp {
    Allocate(Layout),
    Release(usize, Layout),
}

/// The state after the calls `ops`, in order, from `m`.
pub open spec fn run(m: HeapModel, ops: Seq<HeapOp>) -> HeapModel
    decreases ops.len(),
{
    if ops.len() == 0 {
        m
    } else {
        let before = run(m, ops.drop_last());
        match ops.last() {
            HeapOp::Allocate(layout) => before.alloc_next(layout),
            HeapOp::Release(ptr, layout) => before.release_next(ptr, layout),
        }
    }
}

/// A block handed out for `layout` is aligned to `layout.align`, ends inside the arena,
/// and overlaps no block that is handed out and not released.
pub proof fn lemma_allocation_fits(m: HeapModel, layout: Layout)
    requires
        m.inv(),
    ensures
        m.alloc_result(layout) is Ok ==> {
            let a = m.alloc_result(layout)->Ok_0;
            &&& (a as int) % (layout.align as int) == 0
            &&& m.start <= a
            &&& a + layout.size <= m.limit
            &&& forall|b: usize| #[trigger]
                m.live.contains(b) ==> disjoint(a as int, layout.size as int, b as int, m.blocks[b].0)
        },
{
    let c = size_class(layout);
    if m.alloc_result(layout) is Ok {
        let a = m.alloc_result(layout)->Ok_0;
        lemma_round_up(layout.size as int, layout.align as int);
        if m.chain(c).len() > 0 {
            m.lemma_chain_member(c, m.chain(c).len() - 1);
            assert forall|b: usize| #[trigger] m.live.contains(b) implies disjoint(
                a as int,
                layout.size as int,
                b as int,
                m.blocks[b].0,
            ) by {
                assert(m.blocks.contains_key(b));
                assert(m.blocks.contains_key(a));
            }
        } else {
            lemma_round_up(m.cursor, layout.align as int);
            assert forall|b: usize| #[trigger] m.live.contains(b) implies disjoint(
                a as int,
                layout.size as int,
                b as int,
                m.blocks[b].0,
            ) by {
                assert(m.blocks.contains_key(b));
            }
        }
    }
}

/// A request whose size would carry the cursor past the top of the address space is
/// refused as exhausted when no free block of its class waits.
pub proof fn lemma_no_wraparound(m: HeapModel, layout: Layout)
    requires
        m.inv(),
        layout.is_supported(),
        m.chain(size_class(layout)).len() == 0,
        m.cursor + layout.size > usize::MAX,
    ensures
        m.alloc_result(layout) == (Err::<usize, AllocErr>(AllocErr::Exhausted { request: layout })),
{
    lemma_round_up(layout.size as int, layout.align as int);
    lemma_round_up(m.cursor, layout.align as int);
}

/// Releasing `a` and then `b`, both of the class of `layout`, makes the next two
/// allocations of `layout` return `b` and then `a`.
pub proof fn lemma_last_released_first_reused(m: HeapModel, a: usize, b: usize, layout: Layout)
    requires
        m.inv(),
        a != b,
        m.can_release(a, layout),
        m.can_release(b, layout),
    ensures
        ({
            let m2 = m.release_next(a, layout).release_next(b, layout);
            &&& m2.alloc_result(layout) == Ok::<usize, AllocErr>(b)
            &&& m2.alloc_next(layout).alloc_result(layout) == Ok::<usize, AllocErr>(a)
        }),
{
    let c = size_class(layout);
    assert(m.blocks.contains_key(a));
    lemma_round_up(0, layout.align as int);
    if layout.size == 0 {
        assert(round_up(0, layout.align as int) == 0);
    }
    let m1 = m.release_next(a, layout);
    let m2 = m1.release_next(b, layout);
    assert(m2.chain(c).drop_last() =~= m1.chain(c));
}

/// Over any sequence of calls the cursor never moves down, and it stays the start of
/// the arena plus all the bytes ever carved from it, padding included; reused blocks
/// carve nothing.
pub proof fn lemma_cursor_accounts_for_carving(m: HeapModel, ops: Seq<HeapOp>)
    requires
        m.inv(),
    ensures
        run(m, ops).start == m.start,
        run(m, ops).cursor >= m.cursor,
        run(m, ops).cursor == run(m, ops).start + total(run(m, ops).carved),
        m.carved.is_prefix_of(run(m, ops).carved),
    decreases ops.len(),
{
    if ops.len() > 0 {
        lemma_cursor_accounts_for_carving(m, ops.drop_last());
        let before = run(m, ops.drop_last());
        match ops.last() {
            HeapOp::Allocate(layout) => {
                let c = size_class(layout);
                let a = before.bump_start(layout);
                if layout.is_supported() {
                    lemma_round_up(before.cursor, layout.align as int);
                    lemma_round_up(layout.size as int, layout.align as int);
                    lemma_total_push(before.carved, a + c.0 - before.cursor);
                }
            },
            HeapOp::Release(_, _) => {},
        }
    }
}

/// In an arena of exactly `n` bytes, one allocation of `n` bytes aligned to 1 succeeds,
/// at the start of the arena; after it, neither `n` bytes nor a single byte can be had.
pub proof fn lemma_exhaustion_boundary(start: usize, n: usize)
    requires
        n > 0,
        start + n <= usize::MAX,
    ensures
        ({
            let m = HeapModel::fresh(start as int, start + n);
            let whole = Layout { size: n, align: 1 };
            let one = Layout { size: 1, align: 1 };
            let m1 = m.alloc_next(whole);
            &&& m.alloc_result(whole) == Ok::<usize, AllocErr>(start)
            &&& m1.alloc_result(whole) == (Err::<usize, AllocErr>(
                AllocErr::Exhausted { request: whole },
            ))
            &&& m1.alloc_result(one) == (Err::<usize, AllocErr>(
                AllocErr::Exhausted { request: one },
            ))
        }),
{
    assert(is_pow2(1));
    lemma_round_up(start as int, 1);
    lemma_round_up(n as int, 1);
    lemma_round_up(1, 1);
    lemma_round_up(start + n, 1);
}

} // verus!
