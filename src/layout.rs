//! Address arithmetic.

use vstd::arithmetic::power2::is_pow2;
use vstd::prelude::*;

verus! {

/// Rounds `addr` down to the closest multiple of `align`.
pub fn align_down(addr: usize, align: usize) -> (r: usize)
    requires
        align > 0,
    ensures
        r == addr - addr % align,
        r % align == 0,
        r <= addr,
        addr < r + align,
{
    proof {
        vstd::arithmetic::div_mod::lemma_fundamental_div_mod(addr as int, align as int);
        vstd::arithmetic::div_mod::lemma_mod_multiples_basic((addr / align) as int, align as int);
        vstd::arithmetic::mul::lemma_mul_is_commutative((addr / align) as int, align as int);
        assert(addr - addr % align == (addr / align) * align);
    }
    addr - addr % align
}

/// Tells whether `x` is a power of two.
pub fn is_power_of_two(x: usize) -> (r: bool)
    ensures
        r == is_pow2(x as int),
{
    reveal(is_pow2);
    if x == 0 {
        return false;
    }
    let mut v: usize = x;
    while v % 2 == 0
        invariant
            v > 0,
            is_pow2(v as int) == is_pow2(x as int),
        decreases v,
    {
        proof {
            reveal(is_pow2);
            assert(is_pow2(v as int) == is_pow2((v / 2) as int));
        }
        v = v / 2;
    }
    v == 1
}

/// Three quarters of `n`, rounded down, computed without overflow.
pub fn three_quarters(n: usize) -> (r: usize)
    ensures
        r == (75 * n) / 100,
{
    let q = n / 100;
    let rest = n % 100;
    proof {
        vstd::arithmetic::div_mod::lemma_fundamental_div_mod(n as int, 100);
        let qi = q as int;
        let ri = rest as int;
        vstd::arithmetic::div_mod::lemma_fundamental_div_mod(75 * ri, 100);
        let hi = (75 * ri) / 100;
        let lo = (75 * ri) % 100;
        assert(75 * (n as int) == 100 * (75 * qi + hi) + lo);
        vstd::arithmetic::div_mod::lemma_div_multiples_vanish_fancy(75 * qi + hi, lo, 100);
        assert(q * 75 <= n) by (nonlinear_arith)
            requires
                n as int == 100 * qi + ri,
                qi == q,
                ri >= 0,
        ;
    }
    q * 75 + (rest * 75) / 100
}

} // verus!
