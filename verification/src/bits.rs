//! Powers of two hidden in an integer.

use vstd::prelude::*;
use vstd::arithmetic::div_mod::{lemma_fundamental_div_mod, lemma_fundamental_div_mod_converse};
use vstd::arithmetic::power2::is_pow2;

verus! {

/// The largest power of two that divides `n`, and 0 for `n == 0`.
pub open spec fn largest_pow2_divisor(n: nat) -> nat
    decreases n,
{
    if n == 0 {
        0
    } else if n % 2 == 1 {
        1
    } else {
        2 * largest_pow2_divisor(n / 2)
    }
}

/// For a positive `n`, `largest_pow2_divisor(n)` is a power of two, it divides
/// `n`, and what is left of `n` after the division is odd: no larger power of
/// two divides `n`.
pub proof fn lemma_largest_pow2_divisor(n: nat)
    requires
        n > 0,
    ensures
        is_pow2(largest_pow2_divisor(n) as int),
        1 <= largest_pow2_divisor(n) <= n,
        n % largest_pow2_divisor(n) == 0,
        (n / largest_pow2_divisor(n)) % 2 == 1,
    decreases n,
{
    reveal(is_pow2);
    if n % 2 == 0 {
        let h = n / 2;
        let d = largest_pow2_divisor(h);
        lemma_largest_pow2_divisor(h);
        let k = h / d;
        lemma_fundamental_div_mod(h as int, d as int);
        assert(n == k * (2 * d) + 0) by (nonlinear_arith)
            requires
                n == 2 * h,
                h == d * k,
        ;
        lemma_fundamental_div_mod_converse(n as int, (2 * d) as int, k as int, 0);
    }
}

/// The isolated lowest set bit of `n` is the largest power of two dividing `n`.
proof fn lemma_lowest_set_bit(n: u32)
    requires
        n > 0,
    ensures
        n & !((n - 1) as u32) == largest_pow2_divisor(n as nat),
    decreases n,
{
    if n % 2 == 1 {
        assert(n & !((n - 1) as u32) == 1) by (bit_vector)
            requires
                n % 2 == 1,
        ;
    } else {
        let h: u32 = n / 2;
        lemma_lowest_set_bit(h);
        assert(n & !((n - 1) as u32) == 2 * (h & !((h - 1) as u32))) by (bit_vector)
            requires
                n > 0,
                n % 2 == 0,
                h == n / 2,
        ;
    }
}

/// Returns the highest power of two that divides `n`.
pub fn highest_power_of_2(n: u32) -> (p: u32)
    requires
        n > 0,
    ensures
        p == largest_pow2_divisor(n as nat),
        is_pow2(p as int),
        1 <= p <= n,
        n % p == 0,
        (n / p) % 2 == 1,
{
    proof {
        lemma_lowest_set_bit(n);
        lemma_largest_pow2_divisor(n as nat);
    }
    n & !(n - 1)
}

} // verus!
