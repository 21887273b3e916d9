use vstd::prelude::*;

use crate::util::{is_pow2, round_up};

verus! {

/// The shape of an allocation request: a size in bytes and an alignment.
#[derive(Clone, Copy, Debug, PartialEq, Eq, Structural)]
pub struct Layout {
    pub size: usize,
    pub align: usize,
}

impl Layout {
    /// A request for `size` bytes aligned to `align`.
    pub fn from_size_align(size: usize, align: usize) -> (r: Layout)
        ensures
            r.size == size,
            r.align == align,
    {
        Layout { size, align }
    }

    /// The allocator serves this shape: a nonzero size and a power-of-two alignment.
    pub open spec fn is_supported(self) -> bool {
        self.size > 0 && is_pow2(self.align as int)
    }
}

/// A size class: the length of the blocks of the class and their alignment.
/// A request falls in the class of its size rounded up to its alignment, so every
/// block of a class can serve every request of that class.
pub open spec fn size_class(layout: Layout) -> (int, int) {
    (round_up(layout.size as int, layout.align as int), layout.align as int)
}

/// Why a request was refused.
#[derive(Clone, Copy, Debug, PartialEq, Eq, Structural)]
pub enum AllocErr {
    /// Neither a free block of the request's class nor enough untouched arena is left.
    Exhausted { request: Layout },
    /// The size is zero or the alignment is not a power of two.
    Unsupported { request: Layout },
}

} // verus!
