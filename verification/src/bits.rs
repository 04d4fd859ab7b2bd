//! Powers of two as the shifts and masks of `u128` compute them.

use vstd::arithmetic::div_mod::lemma_div_denominator;
use vstd::arithmetic::div_mod::lemma_fundamental_div_mod_converse;
use vstd::arithmetic::power2::lemma_pow2_pos;
use vstd::arithmetic::power2::lemma_pow2_unfold;
use vstd::arithmetic::power2::pow2;
use vstd::prelude::*;

verus! {

/// `x << k` is `x * 2^k` as long as no bit leaves the `u128`.
pub proof fn lemma_shl_is_mul(x: u128, k: u128)
    requires
        k < 128,
        x <= u128::MAX >> k,
    ensures
        x << k == x * pow2(k as nat),
    decreases k,
{
    if k == 0 {
        assert(x << 0u128 == x) by (bit_vector);
        vstd::arithmetic::power2::lemma2_to64();
        assert(pow2(k as nat) == 1);
        assert(x * 1 == x);
    } else {
        let j: u128 = (k - 1) as u128;
        assert(x <= u128::MAX >> j && x << k == 2 * (x << j)) by (bit_vector)
            requires
                0 < k < 128,
                j == k - 1,
                x <= u128::MAX >> k,
        ;
        lemma_shl_is_mul(x, j);
        lemma_pow2_unfold(k as nat);
        assert(x * (2 * pow2(j as nat)) == 2 * (x * pow2(j as nat))) by (nonlinear_arith);
    }
}

/// `1 << k` is `2^k`.
pub proof fn lemma_one_shl(k: u128)
    requires
        k < 128,
    ensures
        1u128 << k == pow2(k as nat),
{
    assert(1u128 <= u128::MAX >> k) by (bit_vector)
        requires
            k < 128,
    ;
    lemma_shl_is_mul(1, k);
}

/// `x >> k` is the quotient of `x` by `2^k`.
pub proof fn lemma_shr_is_div(x: u128, k: u128)
    requires
        k < 128,
    ensures
        x >> k == x as int / pow2(k as nat) as int,
    decreases k,
{
    if k == 0 {
        assert(x >> 0u128 == x) by (bit_vector);
        vstd::arithmetic::power2::lemma2_to64();
        assert(pow2(k as nat) == 1);
        assert(x as int / 1 == x);
    } else {
        let j: u128 = (k - 1) as u128;
        lemma_shr_is_div(x, j);
        lemma_pow2_unfold(k as nat);
        lemma_pow2_pos(j as nat);
        assert(x >> k == (x >> j) / 2) by (bit_vector)
            requires
                0 < k < 128,
                j == k - 1,
        ;
        lemma_div_denominator(x as int, pow2(j as nat) as int, 2);
        assert(pow2(j as nat) * 2 == pow2(k as nat));
    }
}

/// Masking with `2^k - 1` keeps the remainder by `2^k`.
pub proof fn lemma_mask_is_mod(x: u128, mask: u128, k: u128)
    requires
        k < 128,
        mask == pow2(k as nat) - 1,
    ensures
        x & mask == x as int % pow2(k as nat) as int,
{
    lemma_one_shl(k);
    lemma_shr_is_div(x, k);
    lemma_pow2_pos(k as nat);
    let unit: u128 = 1u128 << k;
    let quotient: u128 = x >> k;
    assert(x == (quotient << k) + (x & mask) && (x & mask) < unit && quotient <= u128::MAX >> k)
        by (bit_vector)
        requires
            k < 128,
            unit == 1u128 << k,
            mask == unit - 1,
            quotient == x >> k,
    ;
    lemma_shl_is_mul(quotient, k);
    lemma_fundamental_div_mod_converse(
        x as int,
        pow2(k as nat) as int,
        quotient as int,
        (x & mask) as int,
    );
}

} // verus!
