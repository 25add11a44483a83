//! Power-of-two arithmetic and the bit tricks used for address alignment.

use vstd::prelude::*;
use vstd::arithmetic::power2::{pow2, lemma_pow2_strictly_increases, lemma2_to64, lemma_pow2_pos};
use vstd::bits::{low_bits_mask, lemma_usize_low_bits_mask_is_mod};

verus! {

/// `x` is `2^k` for some natural `k`.
pub open spec fn is_power_of_two(x: int) -> bool {
    exists|k: nat| pow2(k) == x
}

/// Clears the bits of `pos` below `align` (the mask form of rounding down).
pub open spec fn align_down_spec(pos: usize, align: usize) -> usize {
    pos & !((align - 1) as usize)
}

/// Rounds `pos` up with the mask form: `(pos + align - 1)` with the low bits cleared.
pub open spec fn align_up_spec(pos: usize, align: usize) -> usize {
    ((pos + align - 1) as usize) & !((align - 1) as usize)
}

/// `usize::is_power_of_two`, which std documents as true if and only if the
/// value is `2^k` for some `k`; the contract states exactly that.
#[verifier::external_body]
pub(crate) fn usize_is_power_of_two(x: usize) -> (r: bool)
    ensures
        r == is_power_of_two(x as int),
{
    x.is_power_of_two()
}

/// `a - b`, or zero where `b` is the larger (what `usize::saturating_sub` returns).
pub open spec fn sat_sub(a: usize, b: usize) -> usize {
    if a >= b {
        (a - b) as usize
    } else {
        0
    }
}

/// Whether `x` is a multiple of `a`.
pub open spec fn is_multiple_of(x: int, a: int) -> bool {
    x % a == 0
}

/// `x - x % a` is the greatest multiple of `a` that is not above `x`.
pub proof fn lemma_greatest_multiple_below(x: int, a: int, d: int)
    requires
        a > 0,
        x >= 0,
        d >= 0,
        d % a == 0,
        d <= x,
    ensures
        d <= x - x % a,
{
    vstd::arithmetic::div_mod::lemma_fundamental_div_mod(x, a);
    vstd::arithmetic::div_mod::lemma_fundamental_div_mod(d, a);
    vstd::arithmetic::div_mod::lemma_div_is_ordered(d, x, a);
    vstd::arithmetic::mul::lemma_mul_inequality(d / a, x / a, a);
    vstd::arithmetic::mul::lemma_mul_is_commutative(d / a, a);
    vstd::arithmetic::mul::lemma_mul_is_commutative(x / a, a);
}

/// Rounding with masks never moves an address the wrong way, for any `align`:
/// down stays at or below `pos` (by less than `align`), up stays at or above it.
pub proof fn lemma_align_bounds(pos: usize, align: usize)
    requires
        align >= 1,
    ensures
        align_down_spec(pos, align) <= pos,
        pos < align_down_spec(pos, align) + align,
        pos + align <= usize::MAX ==> pos <= align_up_spec(pos, align),
{
    let m: usize = (align - 1) as usize;
    assert(pos & m <= pos) by (bit_vector);
    assert(pos & m <= m) by (bit_vector);
    assert(pos & !m == pos - (pos & m)) by (bit_vector);
    if pos + align <= usize::MAX {
        let x: usize = (pos + align - 1) as usize;
        assert(x & m <= x) by (bit_vector);
        assert(x & m <= m) by (bit_vector);
        assert(x & !m == x - (x & m)) by (bit_vector);
    }
}

/// A power of two that fits in a `usize` has an exponent below `usize::BITS`.
pub proof fn lemma_pow2_exponent_fits(a: usize, k: nat)
    requires
        pow2(k) == a,
    ensures
        k < usize::BITS,
{
    if k >= usize::BITS {
        lemma2_to64();
        if k > usize::BITS {
            lemma_pow2_strictly_increases(usize::BITS as nat, k);
        }
        assert(pow2(usize::BITS as nat) > usize::MAX);
    }
}

/// For a power of two `align`, clearing the low bits is rounding down to a multiple.
pub proof fn lemma_align_down_pow2(pos: usize, align: usize)
    requires
        is_power_of_two(align as int),
    ensures
        align_down_spec(pos, align) == pos - pos % align,
        align_down_spec(pos, align) % align == 0,
        align_down_spec(pos, align) <= pos,
        pos - align < align_down_spec(pos, align),
{
    let k = choose|k: nat| pow2(k) == align;
    lemma_pow2_exponent_fits(align, k);
    lemma_pow2_pos(k);
    lemma_usize_low_bits_mask_is_mod(pos, k);
    let m: usize = (align - 1) as usize;
    assert(low_bits_mask(k) == m);
    assert(pos & m == pos % align);
    assert(pos & m <= pos) by (bit_vector);
    assert(pos & !m == pos - (pos & m)) by (bit_vector);
    assert((pos - pos % align) % (align as int) == 0) by {
        vstd::arithmetic::div_mod::lemma_fundamental_div_mod(pos as int, align as int);
        vstd::arithmetic::div_mod::lemma_mod_multiples_basic(pos as int / align as int, align as int);
    }
}

/// For a power of two `align`, the mask form of rounding up gives the least
/// multiple of `align` that is not below `pos`.
pub proof fn lemma_align_up_pow2(pos: usize, align: usize)
    requires
        is_power_of_two(align as int),
        pos + align - 1 <= usize::MAX,
    ensures
        align_up_spec(pos, align) % align == 0,
        pos <= align_up_spec(pos, align),
        align_up_spec(pos, align) < pos + align,
        align_up_spec(pos, align) == align_down_spec((pos + align - 1) as usize, align),
{
    lemma_align_down_pow2((pos + align - 1) as usize, align);
}

} // verus!
