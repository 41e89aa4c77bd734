//! Powers of two, and the bit operations that stand for arithmetic on them.

use vstd::arithmetic::power2::{lemma2_to64, lemma_pow2_strictly_increases, lemma_pow2_unfold, pow2};
use vstd::bits::{lemma_u32_low_bits_mask_is_mod, low_bits_mask};
use vstd::prelude::*;

verus! {

/// `n` is a positive power of two.
pub open spec fn is_power_of_two(n: int) -> bool
    decreases n,
{
    if n <= 0 {
        false
    } else if n == 1 {
        true
    } else {
        n % 2 == 0 && is_power_of_two(n / 2)
    }
}

/// Tells whether `n` is a positive power of two.
pub fn check_power_of_two(n: u32) -> (r: bool)
    ensures
        r == is_power_of_two(n as int),
{
    if n == 0 {
        return false;
    }
    let mut m: u32 = n;
    while m % 2 == 0
        invariant
            m > 0,
            is_power_of_two(m as int) == is_power_of_two(n as int),
        decreases m,
    {
        m = m / 2;
    }
    m == 1
}

/// A power of two is two raised to some exponent.
pub proof fn lemma_power_of_two_exponent(n: int) -> (e: nat)
    requires
        is_power_of_two(n),
    ensures
        pow2(e) == n,
    decreases n,
{
    if n == 1 {
        lemma2_to64();
        0
    } else {
        let h = lemma_power_of_two_exponent(n / 2);
        lemma_pow2_unfold(h + 1);
        h + 1
    }
}

/// Masking with a power of two less one is reduction modulo that power.
pub proof fn lemma_mask_is_mod(x: u32, l: u32)
    requires
        is_power_of_two(l as int),
    ensures
        x & ((l - 1) as u32) == x % l,
{
    let e = lemma_power_of_two_exponent(l as int);
    assert(e < 32) by {
        lemma2_to64();
        if e > 32 {
            lemma_pow2_strictly_increases(32, e);
        }
    }
    lemma_u32_low_bits_mask_is_mod(x, e);
    assert(low_bits_mask(e) == l - 1);
}

/// The lowest bit of `x` is its parity, and a shift to the right by one
/// halves it.
pub proof fn lemma_shift_down(x: u32)
    ensures
        x >> 1 == x / 2,
        x & 1 == x % 2,
{
    assert(x >> 1 == x / 2) by (bit_vector);
    assert(x & 1 == x % 2) by (bit_vector);
}

/// A shift to the left by one, joined with a bit, doubles `x` and adds the
/// bit.
pub proof fn lemma_shift_up(x: u32, b: u32)
    requires
        x < 0x8000_0000,
        b <= 1,
    ensures
        (x << 1) | b == 2 * x + b,
{
    assert((x << 1) | b == 2 * x + b) by (bit_vector)
        requires
            x < 0x8000_0000u32,
            b <= 1,
    ;
}

} // verus!
