use vstd::prelude::*;

verus! {

use vstd::arithmetic::power2::{pow2, lemma_pow2_unfold};

/// Floor of the base-two logarithm, with `log2(0) == 0`.
pub open spec fn log2(n: nat) -> nat
    decreases n,
{
    if n <= 1 {
        0
    } else {
        1 + log2(n / 2)
    }
}

/// `log2(n)` is the exponent with `pow2(log2(n)) <= n < pow2(log2(n) + 1)`.
pub proof fn lemma_log2_bounds(n: nat)
    requires
        n >= 1,
    ensures
        pow2(log2(n)) <= n < pow2(log2(n) + 1),
    decreases n,
{
    vstd::arithmetic::power2::lemma2_to64();
    if n <= 1 {
    } else {
        lemma_log2_bounds(n / 2);
        lemma_pow2_unfold(log2(n));
        lemma_pow2_unfold(log2(n) + 1);
    }
}

/// Any value below `pow2(k + 1)` has `log2` at most `k`.
pub proof fn lemma_log2_below_pow2(n: nat, k: nat)
    requires
        n < pow2(k + 1),
    ensures
        log2(n) <= k,
    decreases k,
{
    vstd::arithmetic::power2::lemma2_to64();
    if n <= 1 {
    } else {
        lemma_pow2_unfold(k + 1);
        if k == 0 {
        } else {
            lemma_log2_below_pow2(n / 2, (k - 1) as nat);
        }
    }
}

/// `log2` never exceeds its argument.
pub proof fn lemma_log2_le(n: nat)
    ensures
        log2(n) <= n,
    decreases n,
{
    if n <= 1 {
    } else {
        lemma_log2_le(n / 2);
    }
}

/// Powers of two up to the 16-bit id space.
pub proof fn lemma_pow2_le_16(k: nat)
    requires
        k <= 16,
    ensures
        pow2(k) <= 0x10000,
{
    vstd::arithmetic::power2::lemma2_to64();
    if k < 16 {
        vstd::arithmetic::power2::lemma_pow2_strictly_increases(k, 16);
    }
}

/// Floor of the base-two logarithm of `x`.
pub fn log_2(x: usize) -> (r: usize)
    requires
        x >= 1,
    ensures
        r == log2(x as nat),
{
    proof {
        lemma_log2_le(x as nat);
    }
    let mut v: usize = x;
    let mut r: usize = 0;
    while v > 1
        invariant
            v >= 1,
            log2(x as nat) == r + log2(v as nat),
            r <= log2(x as nat),
            log2(x as nat) <= x as nat,
        decreases v,
    {
        proof {
            lemma_log2_le(v as nat);
        }
        v = v / 2;
        r = r + 1;
    }
    r
}

} // verus!
