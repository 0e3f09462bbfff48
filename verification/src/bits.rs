//! Facts about powers of two, masks and rounding that the address arithmetic rests on.

use vstd::prelude::*;
use vstd::arithmetic::power2::{is_pow2, is_pow2_equiv, pow2, lemma_pow2_strictly_increases, lemma2_to64, lemma_pow2_pos};
use vstd::arithmetic::power::pow;
use vstd::bits::{low_bits_mask, lemma_usize_low_bits_mask_is_mod};
use crate::{align_down_spec, align_up_spec};

verus! {

proof fn lemma_mask_halves(a: usize)
    by (bit_vector)
    requires
        a > 1,
    ensures
        (a & ((a - 1) as usize)) == 0 <==> a % 2 == 0 && ((a / 2) & ((a / 2 - 1) as usize)) == 0,
{
}

proof fn lemma_clear_low(x: usize, m: usize)
    by (bit_vector)
    ensures
        x & !m == (x - (x & m)) as usize,
        x & m <= x,
{
}

/// A number is a power of two exactly when it is not zero and shares no bit with
/// its predecessor.
pub proof fn lemma_single_bit(a: usize)
    ensures
        (a != 0 && a & ((a - 1) as usize) == 0) <==> is_pow2(a as int),
    decreases a,
{
    reveal(is_pow2);
    if a > 1 {
        lemma_mask_halves(a);
        lemma_single_bit(a / 2);
    } else if a == 1 {
        assert(1usize & 0usize == 0) by (bit_vector);
    }
}

pub proof fn lemma_pow2_positive(a: usize)
    requires
        is_pow2(a as int),
    ensures
        a >= 1,
{
    reveal(is_pow2);
}

/// Masking with a power of two less one takes the remainder.
pub proof fn lemma_mask_is_mod(x: usize, a: usize)
    requires
        is_pow2(a as int),
    ensures
        x & ((a - 1) as usize) == x % a,
{
    let k = lemma_exponent(a);
    lemma_usize_low_bits_mask_is_mod(x, k);
    lemma_pow2_pos(k);
    assert(low_bits_mask(k) == a - 1);
}

/// The exponent of a power of two that is an address is below the word size.
pub proof fn lemma_exponent(a: usize) -> (k: nat)
    requires
        is_pow2(a as int),
    ensures
        k < usize::BITS,
        pow2(k) == a,
{
    is_pow2_equiv(a as int);
    let k = choose|k: nat| pow(2, k) == a as int;
    assert(pow2(k) == a);
    if k >= usize::BITS {
        lemma2_to64();
        if k > usize::BITS {
            lemma_pow2_strictly_increases(usize::BITS as nat, k);
        }
        assert(pow2(usize::BITS as nat) > usize::MAX);
        assert(false);
    }
    k
}

/// Clearing the bits below a power of two rounds down to its multiple.
pub proof fn lemma_mask_clears(x: usize, a: usize)
    requires
        is_pow2(a as int),
    ensures
        x & !((a - 1) as usize) == align_down_spec(x as int, a as int),
{
    lemma_pow2_positive(a);
    lemma_mask_is_mod(x, a);
    lemma_clear_low(x, (a - 1) as usize);
}

/// Rounding down lands on a multiple of the alignment, less than one alignment below.
pub proof fn lemma_align_down_bounds(addr: int, align: int)
    requires
        align > 0,
    ensures
        align_down_spec(addr, align) % align == 0,
        addr - align < align_down_spec(addr, align) <= addr,
{
    vstd::arithmetic::div_mod::lemma_fundamental_div_mod(addr, align);
    vstd::arithmetic::div_mod::lemma_mod_multiples_basic(addr / align, align);
    vstd::arithmetic::div_mod::lemma_mod_bound(addr, align);
    assert(align * (addr / align) == (addr / align) * align) by (nonlinear_arith);
}

/// No multiple of the alignment lies strictly between an address and its rounding
/// down.
pub proof fn lemma_align_down_greatest(addr: int, align: int, m: int)
    requires
        align > 0,
        m % align == 0,
        m <= addr,
    ensures
        m <= align_down_spec(addr, align),
{
    lemma_align_down_bounds(addr, align);
    let r = align_down_spec(addr, align);
    if r < m {
        vstd::arithmetic::div_mod::lemma_fundamental_div_mod(r, align);
        vstd::arithmetic::div_mod::lemma_fundamental_div_mod(m, align);
        let qr = r / align;
        let qm = m / align;
        assert(r == align * qr);
        assert(m == align * qm);
        assert(qr < qm) by (nonlinear_arith)
            requires
                align * qr < align * qm,
                align > 0,
        ;
        assert(align * qm - align * qr >= align) by (nonlinear_arith)
            requires
                qr < qm,
                align > 0,
        ;
    }
}

/// Rounding up lands on a multiple of the alignment, less than one alignment above.
pub proof fn lemma_align_up_bounds(addr: int, align: int)
    requires
        align > 0,
    ensures
        align_up_spec(addr, align) % align == 0,
        addr <= align_up_spec(addr, align) < addr + align,
{
    lemma_align_down_bounds(addr + align - 1, align);
}

/// No multiple of the alignment lies strictly between an address and its rounding.
pub proof fn lemma_align_up_least(addr: int, align: int, m: int)
    requires
        align > 0,
        m % align == 0,
        addr <= m,
    ensures
        align_up_spec(addr, align) <= m,
{
    lemma_align_up_bounds(addr, align);
    let r = align_up_spec(addr, align);
    if m < r {
        // r and m are both multiples, less than one alignment apart
        vstd::arithmetic::div_mod::lemma_fundamental_div_mod(r, align);
        vstd::arithmetic::div_mod::lemma_fundamental_div_mod(m, align);
        let qr = r / align;
        let qm = m / align;
        assert(r == align * qr);
        assert(m == align * qm);
        assert(qm < qr) by (nonlinear_arith)
            requires
                align * qm < align * qr,
                align > 0,
        ;
        assert(align * qr - align * qm >= align) by (nonlinear_arith)
            requires
                qm < qr,
                align > 0,
        ;
    }
}

/// An aligned address is its own rounding, and only an aligned address is.
pub proof fn lemma_align_up_exact(addr: int, align: int)
    requires
        align > 0,
    ensures
        addr % align == 0 <==> align_up_spec(addr, align) == addr,
{
    lemma_align_up_bounds(addr, align);
    if addr % align == 0 {
        lemma_align_up_least(addr, align, addr);
    }
}

/// Above the last address that leaves room for a whole alignment, the next
/// multiple is past every address.
pub proof fn lemma_top_multiple(addr: usize, a: usize)
    requires
        is_pow2(a as int),
        addr > usize::MAX - (a - 1),
        addr % a != 0,
    ensures
        align_up_spec(addr as int, a as int) > usize::MAX,
{
    lemma_pow2_positive(a);
    lemma_align_up_bounds(addr as int, a as int);
    lemma_align_up_exact(addr as int, a as int);
    let r = align_up_spec(addr as int, a as int);
    if r <= usize::MAX {
        // r is a multiple in (addr, MAX], so MAX + 1 - r < a, yet a divides MAX + 1
        lemma_word_multiple(a);
        let top = usize::MAX + 1;
        vstd::arithmetic::div_mod::lemma_fundamental_div_mod(r, a as int);
        vstd::arithmetic::div_mod::lemma_fundamental_div_mod(top, a as int);
        let qr = r / (a as int);
        let qt = top / (a as int);
        assert(r == a * qr);
        assert(top == a * qt);
        assert(qr < qt) by (nonlinear_arith)
            requires
                a * qr < a * qt,
                a > 0,
        ;
        assert(a * qt - a * qr >= a) by (nonlinear_arith)
            requires
                qr < qt,
                a > 0,
        ;
    }
}

/// Every power of two that is an address divides the number of addresses.
pub proof fn lemma_word_multiple(a: usize)
    requires
        is_pow2(a as int),
    ensures
        (usize::MAX + 1) % (a as int) == 0,
{
    let k = lemma_exponent(a);
    let rest = (usize::BITS - k) as nat;
    lemma2_to64();
    assert(pow2(usize::BITS as nat) == usize::MAX + 1);
    vstd::arithmetic::power2::lemma_pow2_adds(rest, k);
    lemma_pow2_pos(k);
    vstd::arithmetic::div_mod::lemma_mod_multiples_basic(pow2(rest) as int, a as int);
}

} // verus!
