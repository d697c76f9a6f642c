//! Rounding addresses to power-of-two boundaries.
//!
//! The specification speaks of multiples; the executable code masks bits.
//! The lemmas here connect the two.

use vstd::arithmetic::div_mod::{
    lemma_fundamental_div_mod, lemma_mod_bound, lemma_mod_multiples_basic,
};
use vstd::arithmetic::power::pow;
use vstd::arithmetic::power2::{
    is_pow2, is_pow2_equiv, is_pow2_exists, lemma2_to64, lemma_pow2_adds, lemma_pow2_pos,
    lemma_pow2_strictly_increases, pow2,
};
use vstd::bits::{low_bits_mask, lemma_usize_low_bits_mask_is_mod};
use vstd::prelude::*;

verus! {

/// The largest multiple of `align` that is not above `addr`.
pub open spec fn align_down(addr: int, align: int) -> int
    recommends
        align > 0,
{
    addr - addr % align
}

/// The smallest multiple of `align` that is not below `addr`.
pub open spec fn align_up(addr: int, align: int) -> int
    recommends
        align > 0,
{
    align_down(addr + align - 1, align)
}

/// `align_down` yields a multiple of `align`, less than one `align` below
/// `addr`, and no multiple of `align` lies between the two.
pub proof fn lemma_align_down(addr: int, align: int)
    requires
        align > 0,
    ensures
        align_down(addr, align) % align == 0,
        align_down(addr, align) <= addr < align_down(addr, align) + align,
        forall|m: int| #[trigger] (m % align) == 0 && m <= addr ==> m <= align_down(addr, align),
{
    lemma_fundamental_div_mod(addr, align);
    lemma_mod_bound(addr, align);
    lemma_mod_multiples_basic(addr / align, align);
    assert(align_down(addr, align) == (addr / align) * align) by (nonlinear_arith)
        requires
            addr == align * (addr / align) + addr % align,
            align_down(addr, align) == addr - addr % align,
    ;
    assert forall|m: int| #[trigger] (m % align) == 0 && m <= addr implies m <= align_down(
        addr,
        align,
    ) by {
        lemma_multiples_are_spaced(m, align_down(addr, align), align);
    }
}

/// `align_up` yields a multiple of `align`, less than one `align` above
/// `addr`, and no multiple of `align` lies between the two.
pub proof fn lemma_align_up(addr: int, align: int)
    requires
        align > 0,
    ensures
        align_up(addr, align) % align == 0,
        addr <= align_up(addr, align) < addr + align,
        forall|m: int| #[trigger] (m % align) == 0 && addr <= m ==> align_up(addr, align) <= m,
{
    lemma_align_down(addr + align - 1, align);
    assert forall|m: int| #[trigger] (m % align) == 0 && addr <= m implies align_up(addr, align)
        <= m by {
        lemma_multiples_are_spaced(align_up(addr, align), m, align);
    }
}

/// Two multiples of `align` are equal or at least `align` apart.
proof fn lemma_multiples_are_spaced(a: int, b: int, align: int)
    requires
        align > 0,
        a % align == 0,
        b % align == 0,
    ensures
        a > b ==> a >= b + align,
{
    lemma_fundamental_div_mod(a, align);
    lemma_fundamental_div_mod(b, align);
    let qa = a / align;
    let qb = b / align;
    if a > b {
        assert(qa > qb) by (nonlinear_arith)
            requires
                a == align * qa,
                b == align * qb,
                a > b,
                align > 0,
        ;
        assert(a >= b + align) by (nonlinear_arith)
            requires
                a == align * qa,
                b == align * qb,
                qa >= qb + 1,
                align > 0,
        ;
    }
}

/// A power of two that fits in `usize` is `pow2(n)` for some `n` below the
/// width of `usize`.
proof fn lemma_pow2_exponent(align: usize) -> (n: nat)
    requires
        is_pow2(align as int),
    ensures
        n < usize::BITS,
        pow2(n) == align,
        align > 0,
        low_bits_mask(n) == align - 1,
{
    is_pow2_equiv(align as int);
    assert(is_pow2_exists(align as int));
    let n = choose|i: nat| pow(2, i) == align as int;
    assert(pow2(n) == align);
    if n >= usize::BITS {
        lemma2_to64();
        if usize::BITS == 32 {
            if n > 32 {
                lemma_pow2_strictly_increases(32, n);
            }
        } else {
            if n > 64 {
                lemma_pow2_strictly_increases(64, n);
            }
        }
        assert(false);
    }
    lemma_pow2_pos(n);
    n
}

proof fn lemma_split_by_mask(addr: usize, mask: usize)
    by (bit_vector)
    ensures
        addr & !mask == addr - (addr & mask),
{
}

/// Clearing the bits below a power of two rounds down to a multiple of it.
pub proof fn lemma_mask_rounds_down(addr: usize, align: usize)
    requires
        is_pow2(align as int),
    ensures
        align > 0,
        addr & !((align - 1) as usize) == align_down(addr as int, align as int),
{
    let n = lemma_pow2_exponent(align);
    let mask = (align - 1) as usize;
    assert(low_bits_mask(n) as usize == mask);
    lemma_usize_low_bits_mask_is_mod(addr, n);
    assert(addr & mask == addr % align);
    lemma_split_by_mask(addr, mask);
}

/// A power of two that fits in `usize` divides the size of the address space.
pub proof fn lemma_pow2_divides_address_space(align: usize)
    requires
        is_pow2(align as int),
    ensures
        align > 0,
        (usize::MAX + 1) % (align as int) == 0,
{
    let n = lemma_pow2_exponent(align);
    let rest = (usize::BITS - n) as nat;
    lemma2_to64();
    lemma_pow2_adds(n, rest);
    assert(usize::MAX + 1 == pow2(n) * pow2(rest));
    lemma_mod_multiples_basic(pow2(rest) as int, align as int);
    assert(pow2(rest) * pow2(n) == pow2(n) * pow2(rest)) by (nonlinear_arith);
}

/// Rounding an address up to a power of two leaves the address space
/// whenever adding `align - 1` to it does.
pub proof fn lemma_align_up_overflow(addr: usize, align: usize)
    requires
        is_pow2(align as int),
    ensures
        align > 0,
        addr + (align - 1) > usize::MAX ==> align_up(addr as int, align as int) > usize::MAX,
{
    lemma_pow2_divides_address_space(align);
    lemma_align_down(addr + align - 1, align as int);
}

} // verus!
