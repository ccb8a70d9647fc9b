//! Powers of two: how to recognise one, what masking with one less than
//! one leaves, and which of them divide which.

use vstd::arithmetic::div_mod::{
    lemma_fundamental_div_mod, lemma_mod_breakdown, lemma_mod_multiples_basic,
};
use vstd::arithmetic::power::pow;
use vstd::arithmetic::power2::is_pow2;
use vstd::prelude::*;

verus! {

/// Twice a power of two is a power of two.
pub proof fn lemma_pow2_doubles(n: int)
    requires
        is_pow2(n),
    ensures
        is_pow2(2 * n),
{
    reveal(is_pow2);
}

/// Every power of 256 is a power of two.
pub proof fn lemma_pow256_is_pow2(exponent: nat)
    ensures
        is_pow2(pow(256, exponent)),
    decreases exponent,
{
    reveal(pow);
    if exponent == 0 {
        reveal(is_pow2);
    } else {
        let q = pow(256, (exponent - 1) as nat);
        lemma_pow256_is_pow2((exponent - 1) as nat);
        lemma_pow2_doubles(q);
        lemma_pow2_doubles(2 * q);
        lemma_pow2_doubles(4 * q);
        lemma_pow2_doubles(8 * q);
        lemma_pow2_doubles(16 * q);
        lemma_pow2_doubles(32 * q);
        lemma_pow2_doubles(64 * q);
        lemma_pow2_doubles(128 * q);
        assert(pow(256, exponent) == 256 * q);
    }
}

/// A nonzero word with a single set bit is twice such a word, or one.
proof fn lemma_single_bit_halves(n: u64)
    by (bit_vector)
    requires
        n > 1,
    ensures
        (n & (n - 1) as u64) == 0 <==> (n % 2 == 0 && ((n / 2) & (n / 2 - 1) as u64) == 0),
{
}

/// The single-set-bit test characterises the powers of two.
pub proof fn lemma_single_bit_is_pow2(n: u64)
    ensures
        is_pow2(n as int) <==> (n != 0 && (n & (n - 1) as u64) == 0),
    decreases n,
{
    reveal(is_pow2);
    if n == 0 {
    } else if n == 1 {
        assert((1u64 & 0u64) == 0) by (bit_vector);
    } else {
        lemma_single_bit_halves(n);
        lemma_single_bit_is_pow2(n / 2);
    }
}

/// A mask of low bits splits into the mask of the upper bits and bit zero.
proof fn lemma_mask_halves(x: u64, bound: u64)
    by (bit_vector)
    requires
        bound >= 2,
        bound % 2 == 0,
    ensures
        x & (bound - 1) as u64 == 2 * ((x / 2) & (bound / 2 - 1) as u64) + x % 2,
{
}

/// Masking with one less than a power of two keeps the remainder of the
/// division by that power: out-of-range values wrap, they do not saturate.
pub proof fn lemma_mask_is_mod(x: u64, bound: u64)
    requires
        is_pow2(bound as int),
    ensures
        x & (bound - 1) as u64 == x % bound,
        x % bound < bound,
    decreases bound,
{
    reveal(is_pow2);
    if bound == 1 {
        assert(x & 0u64 == 0) by (bit_vector);
    } else {
        let half = bound / 2;
        lemma_mask_is_mod(x / 2, half);
        lemma_mask_halves(x, bound);
        lemma_mod_breakdown(x as int, 2, half as int);
    }
}

/// Of two powers of two the smaller divides the larger.
pub proof fn lemma_pow2_divides(small: int, large: int)
    requires
        is_pow2(small),
        is_pow2(large),
        small <= large,
    ensures
        small > 0,
        large % small == 0,
    decreases small,
{
    reveal(is_pow2);
    if small > 1 {
        let s = small / 2;
        let l = large / 2;
        lemma_pow2_divides(s, l);
        let q = l / s;
        lemma_fundamental_div_mod(l, s);
        assert(large == small * q) by (nonlinear_arith)
            requires
                large == 2 * l,
                small == 2 * s,
                l == s * q,
        ;
        lemma_mod_multiples_basic(q, small);
        assert(small * q == q * small) by (nonlinear_arith);
    }
}

/// A divisor of a power of two is a power of two.
pub proof fn lemma_divisor_of_pow2(divisor: int, power: int)
    requires
        is_pow2(power),
        divisor > 0,
        power % divisor == 0,
    ensures
        is_pow2(divisor),
        divisor <= power,
    decreases power,
{
    reveal(is_pow2);
    let q = power / divisor;
    lemma_fundamental_div_mod(power, divisor);
    assert(q >= 1 && divisor <= power) by (nonlinear_arith)
        requires
            power == divisor * q,
            power > 0,
            divisor > 0,
    ;
    if power > 1 {
        let half = power / 2;
        if divisor % 2 == 0 {
            let d = divisor / 2;
            assert(half == d * q) by (nonlinear_arith)
                requires
                    power == divisor * q,
                    power == 2 * half,
                    divisor == 2 * d,
            ;
            lemma_mod_multiples_basic(q, d);
            assert(d * q == q * d) by (nonlinear_arith);
            lemma_divisor_of_pow2(d, half);
            lemma_pow2_doubles(d);
        } else {
            let d = divisor / 2;
            let r = half - d * q;
            assert(q == 2 * r) by (nonlinear_arith)
                requires
                    power == divisor * q,
                    power == 2 * half,
                    divisor == 2 * d + 1,
                    r == half - d * q,
            ;
            assert(half == divisor * r) by (nonlinear_arith)
                requires
                    power == divisor * q,
                    power == 2 * half,
                    q == 2 * r,
            ;
            lemma_mod_multiples_basic(r, divisor);
            assert(divisor * r == r * divisor) by (nonlinear_arith);
            lemma_divisor_of_pow2(divisor, half);
        }
    }
}

} // verus!
