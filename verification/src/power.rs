//! Powers of two and bit lengths of natural numbers.

use vstd::arithmetic::div_mod::*;
use vstd::arithmetic::mul::*;
use vstd::arithmetic::power2::*;
use vstd::prelude::*;

verus! {

/// The number of binary digits of `n`: zero for zero, and otherwise the
/// `l` with `2^(l-1) <= n < 2^l`.
pub open spec fn bit_length(n: nat) -> nat
    decreases n,
{
    if n == 0 {
        0
    } else {
        1 + bit_length(n / 2)
    }
}

/// Powers of two grow with the exponent.
pub proof fn lemma_pow2_monotonic(a: nat, b: nat)
    requires
        a <= b,
    ensures
        pow2(a) <= pow2(b),
{
    if a < b {
        lemma_pow2_strictly_increases(a, b);
    }
}

/// `2^a <= 2^b` only if `a <= b`, and `2^a < 2^b` only if `a < b`.
pub proof fn lemma_pow2_order_reflects(a: nat, b: nat)
    ensures
        pow2(a) <= pow2(b) ==> a <= b,
        pow2(a) < pow2(b) ==> a < b,
{
    if b < a {
        lemma_pow2_strictly_increases(b, a);
    }
}

/// A positive number lies between the two powers of two that its bit
/// length names.
pub proof fn lemma_bit_length_bounds(n: nat)
    requires
        n > 0,
    ensures
        bit_length(n) >= 1,
        pow2((bit_length(n) - 1) as nat) <= n < pow2(bit_length(n)),
    decreases n,
{
    lemma2_to64();
    if n == 1 {
        assert(bit_length(1) == 1 + bit_length(0));
    } else {
        let h = n / 2;
        lemma_bit_length_bounds(h);
        let l = bit_length(h);
        lemma_pow2_unfold(l);
        lemma_pow2_unfold(l + 1);
    }
}

/// The bit length is the only `l` whose powers of two enclose `n`.
pub proof fn lemma_bit_length_unique(n: nat, l: nat)
    requires
        l >= 1,
        pow2((l - 1) as nat) <= n < pow2(l),
    ensures
        bit_length(n) == l,
{
    lemma_pow2_pos((l - 1) as nat);
    lemma_bit_length_bounds(n);
    let m = bit_length(n);
    if m < l {
        lemma_pow2_monotonic(m, (l - 1) as nat);
    } else if l < m {
        lemma_pow2_monotonic(l, (m - 1) as nat);
    }
}

/// Doubling `j` times adds `j` to the bit length of a positive number.
pub proof fn lemma_bit_length_scaled(n: nat, j: nat)
    requires
        n > 0,
    ensures
        bit_length(n * pow2(j)) == bit_length(n) + j,
{
    lemma_bit_length_bounds(n);
    let l = bit_length(n);
    lemma_pow2_pos(j);
    lemma_pow2_adds((l - 1) as nat, j);
    lemma_pow2_adds(l, j);
    lemma_mul_inequality(pow2((l - 1) as nat) as int, n as int, pow2(j) as int);
    lemma_mul_strict_inequality(n as int, pow2(l) as int, pow2(j) as int);
    lemma_bit_length_unique(n * pow2(j), l + j);
}

/// A number below `2^l` has at most `l` binary digits.
pub proof fn lemma_bit_length_below(n: nat, l: nat)
    requires
        n < pow2(l),
    ensures
        bit_length(n) <= l,
{
    if n > 0 {
        lemma_bit_length_bounds(n);
        lemma_pow2_order_reflects((bit_length(n) - 1) as nat, l);
    }
}

/// The value of `2^128`, one more than the largest `u128`.
pub proof fn lemma_pow2_128()
    ensures
        pow2(128) == 0x1_0000_0000_0000_0000_0000_0000_0000_0000,
{
    lemma2_to64();
    lemma_pow2_adds(64, 64);
}

proof fn lemma_one_shifted(k: u32)
    requires
        k < 128,
    ensures
        (1u128 << k) == pow2(k as nat),
    decreases k,
{
    if k == 0 {
        assert(1u128 << 0u32 == 1u128) by (bit_vector);
        lemma2_to64();
    } else {
        let j: u32 = (k - 1) as u32;
        lemma_one_shifted(j);
        assert((1u128 << k) == 2 * (1u128 << j)) by (bit_vector)
            requires
                0 < k < 128,
                j == k - 1,
        ;
        lemma_pow2_unfold(k as nat);
    }
}

/// `2^k` as a machine integer.
pub fn pow2_u128(k: u32) -> (p: u128)
    requires
        k < 128,
    ensures
        p == pow2(k as nat),
        p > 0,
{
    proof {
        lemma_one_shifted(k);
        lemma_pow2_pos(k as nat);
    }
    1u128 << k
}

/// The bit length of a machine integer.
pub fn bit_length_u128(n: u128) -> (l: u32)
    ensures
        l == bit_length(n as nat),
        l <= 128,
{
    let mut rest: u128 = n;
    let mut l: u32 = 0;
    proof {
        lemma_pow2_128();
        lemma_bit_length_below(n as nat, 128);
    }
    while rest > 0
        invariant
            bit_length(n as nat) == l + bit_length(rest as nat),
            bit_length(n as nat) <= 128,
        decreases rest,
    {
        rest = rest / 2;
        l = l + 1;
    }
    l
}

} // verus!
