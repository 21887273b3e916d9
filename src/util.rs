use vstd::prelude::*;
use vstd::arithmetic::div_mod::{
    lemma_fundamental_div_mod, lemma_fundamental_div_mod_converse, lemma_mod_breakdown,
};

verus! {

/// `n` is a positive power of two.
pub open spec fn is_pow2(n: int) -> bool
    decreases n,
{
    if n <= 0 {
        false
    } else if n == 1 {
        true
    } else {
        n % 2 == 0 && is_pow2(n / 2)
    }
}

/// The smallest multiple of `align` that is at least `x`.
pub open spec fn round_up(x: int, align: int) -> int
    recommends
        align > 0,
{
    if x % align == 0 {
        x
    } else {
        x + (align - x % align)
    }
}

/// One halving step of the bit test for powers of two.
proof fn lemma_pow2_step(a: usize)
    requires
        a > 1,
    ensures
        (a & (a - 1) as usize == 0) <==> (a % 2 == 0 && (a / 2) & ((a / 2) - 1) as usize == 0 && a / 2 != 0),
{
    assert(a > 1 ==> ((a & (a - 1) as usize == 0) <==> (a % 2 == 0 && (a / 2) & ((a / 2) - 1) as usize == 0 && a / 2 != 0))) by (bit_vector);
}

/// A power of two is exactly a nonzero value that shares no bit with its predecessor.
pub proof fn lemma_power_of_two_bits(a: usize)
    ensures
        is_pow2(a as int) <==> (a != 0 && a & (a - 1) as usize == 0),
    decreases a,
{
    if a == 0 {
    } else if a == 1 {
        assert(1usize & 0usize == 0) by (bit_vector);
    } else {
        lemma_pow2_step(a);
        lemma_power_of_two_bits(a / 2);
    }
}

/// Masking with `align - 1` keeps the remainder modulo a power of two.
proof fn lemma_low_mask_is_mod(y: usize, a: usize)
    requires
        a != 0,
        a & (a - 1) as usize == 0,
    ensures
        y & (a - 1) as usize == y % a,
    decreases a,
{
    if a == 1 {
        assert(y & 0usize == 0) by (bit_vector);
    } else {
        lemma_pow2_step(a);
        let b = a / 2;
        let z = y / 2;
        lemma_low_mask_is_mod(z, b);
        assert(a > 1 && a & (a - 1) as usize == 0 ==> y & (a - 1) as usize == (y & 1) + 2 * (
        (y / 2) & ((a / 2) - 1) as usize)) by (bit_vector);
        assert(y & 1 == y % 2) by (bit_vector);
        assert(a == 2 * b);
        lemma_mod_breakdown(y as int, 2, b as int);
    }
}

/// Clearing the bits below a power of two subtracts the remainder.
proof fn lemma_mask_is_mod(y: usize, a: usize)
    requires
        a != 0,
        a & (a - 1) as usize == 0,
    ensures
        y & (a - 1) as usize == y % a,
        y & !((a - 1) as usize) == y - y % a,
{
    lemma_low_mask_is_mod(y, a);
    assert(y & !((a - 1) as usize) == y - (y & (a - 1) as usize)) by (bit_vector);
}

/// `round_up` is the least multiple of `align` at or above `x`.
pub proof fn lemma_round_up(x: int, align: int)
    requires
        x >= 0,
        align > 0,
    ensures
        round_up(x, align) % align == 0,
        x <= round_up(x, align) < x + align,
        round_up(x, align) == (x + align - 1) - (x + align - 1) % align,
{
    let q = x / align;
    let m = x % align;
    lemma_fundamental_div_mod(x, align);
    if m == 0 {
        lemma_fundamental_div_mod_converse(x + align - 1, align, q, align - 1);
    } else {
        assert((q + 1) * align == q * align + align) by (nonlinear_arith);
        lemma_fundamental_div_mod_converse(x + align - 1, align, q + 1, m - 1);
        lemma_fundamental_div_mod_converse(x + align - m, align, q + 1, 0);
    }
}

/// Rounding up past the top of the address space: when `x + align - 1` does not fit
/// in a `usize`, neither does the next multiple of `align`.
proof fn lemma_round_up_overflows(x: usize, align: usize)
    requires
        align != 0,
        align & (align - 1) as usize == 0,
        x + align - 1 > usize::MAX,
    ensures
        round_up(x as int, align as int) > usize::MAX,
{
    lemma_round_up(x as int, align as int);
    let r = round_up(x as int, align as int);
    if r <= usize::MAX {
        let ru = r as usize;
        let m = (align - 1) as usize;
        lemma_low_mask_is_mod(ru, align);
        assert(ru & m == 0 ==> (ru | m) as int == ru + m) by (bit_vector);
    }
}

/// Whether `n` is a power of two, by masking.
pub fn is_power_of_two(n: usize) -> (r: bool)
    ensures
        r == is_pow2(n as int),
{
    proof {
        lemma_power_of_two_bits(n);
    }
    n != 0 && n & (n - 1) == 0
}

/// Rounds `addr` up to the next multiple of `align` by mask and add; `None` when that
/// multiple does not fit in a `usize`.
pub fn align_up(addr: usize, align: usize) -> (r: Option<usize>)
    requires
        is_pow2(align as int),
    ensures
        round_up(addr as int, align as int) <= usize::MAX ==> r == Some(
            round_up(addr as int, align as int) as usize,
        ),
        round_up(addr as int, align as int) > usize::MAX ==> r is None,
{
    proof {
        lemma_power_of_two_bits(align);
        lemma_round_up(addr as int, align as int);
    }
    match addr.checked_add(align - 1) {
        Some(y) => {
            proof {
                lemma_mask_is_mod(y, align);
            }
            Some(y & !(align - 1))
        },
        None => {
            proof {
                lemma_round_up_overflows(addr, align);
            }
            None
        },
    }
}

} // verus!
