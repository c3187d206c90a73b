//! Small verified arithmetic helpers: executable powers of two and the
//! binary length of a number, with the facts the gadgets need about them.

use vstd::prelude::*;
use vstd::arithmetic::power2::{
    pow2, lemma_pow2_adds, lemma_pow2_strictly_increases, lemma_pow2_pos, lemma2_to64,
    lemma2_to64_rest, lemma_pow2_unfold,
};
use vstd::arithmetic::div_mod::{
    lemma_fundamental_div_mod, lemma_fundamental_div_mod_converse,
};

verus! {

/// Number of binary digits of `m`: zero for zero, otherwise the unique `n`
/// with `pow2(n - 1) <= m < pow2(n)`.
pub open spec fn bit_len(m: nat) -> nat
    decreases m,
{
    if m == 0 {
        0
    } else {
        1 + bit_len(m / 2)
    }
}

/// `pow2` never decreases as the exponent grows.
pub proof fn lemma_pow2_le(e1: nat, e2: nat)
    requires
        e1 <= e2,
    ensures
        pow2(e1) <= pow2(e2),
{
    if e1 < e2 {
        lemma_pow2_strictly_increases(e1, e2);
    }
}

/// A positive number sits between the two powers of two that its binary
/// length names.
pub proof fn lemma_bit_len_bounds(m: nat)
    requires
        m > 0,
    ensures
        bit_len(m) >= 1,
        pow2((bit_len(m) - 1) as nat) <= m < pow2(bit_len(m)),
    decreases m,
{
    lemma_fundamental_div_mod(m as int, 2);
    if m / 2 == 0 {
        lemma2_to64();
        assert(m == 1);
        assert(bit_len(1) == 1 + bit_len(0));
    } else {
        lemma_bit_len_bounds(m / 2);
        let k = bit_len(m / 2);
        assert(bit_len(m) == k + 1);
        lemma_pow2_unfold(k);
        lemma_pow2_unfold(k + 1);
        assert(m >= 2 * (m / 2));
        assert(m <= 2 * (m / 2) + 1);
        assert(pow2(k) == 2 * pow2((k - 1) as nat));
        assert(2 * (m / 2) >= 2 * pow2((k - 1) as nat));
        assert(m < pow2(k + 1));
    }
}

/// A bound on a number bounds its binary length.
pub proof fn lemma_bit_len_le(m: nat, k: nat)
    requires
        m < pow2(k),
    ensures
        bit_len(m) <= k,
{
    if m > 0 {
        lemma_bit_len_bounds(m);
        if bit_len(m) > k {
            lemma_pow2_le(k, (bit_len(m) - 1) as nat);
            assert(false);
        }
    }
}

/// The binary length is pinned down by any bracketing pair of powers.
pub proof fn lemma_bit_len_eq(m: nat, n: nat)
    requires
        n >= 1,
        pow2((n - 1) as nat) <= m < pow2(n),
    ensures
        bit_len(m) == n,
{
    lemma_pow2_pos((n - 1) as nat);
    lemma_bit_len_bounds(m);
    let b = bit_len(m);
    if b < n {
        lemma_pow2_le(b, (n - 1) as nat);
        assert(false);
    }
    if b > n {
        lemma_pow2_le(n, (b - 1) as nat);
        assert(false);
    }
}

/// Executable power of two on `u128`.
pub fn pow2_u128(e: u32) -> (r: u128)
    requires
        e <= 127,
    ensures
        r as nat == pow2(e as nat),
{
    proof {
        lemma2_to64();
        lemma2_to64_rest();
        lemma_pow2_adds(64, 63);
        assert(pow2(127) == 0x80000000000000000000000000000000) by {
            assert(pow2(127) == pow2(64) * pow2(63));
        }
    }
    let mut r: u128 = 1;
    let mut i: u32 = 0;
    while i < e
        invariant
            i <= e,
            e <= 127,
            r as nat == pow2(i as nat),
            pow2(127) == 0x80000000000000000000000000000000,
        decreases e - i,
    {
        proof {
            lemma_pow2_unfold(i as nat + 1);
            lemma_pow2_le(i as nat + 1, 127);
        }
        r = r * 2;
        i = i + 1;
    }
    r
}

/// Executable binary length of a `u128`.
pub fn bit_len_u128(m: u128) -> (n: u32)
    ensures
        n as nat == bit_len(m as nat),
        n <= 128,
{
    proof {
        lemma_pow2_adds(64, 64);
        lemma2_to64();
        lemma_bit_len_le(m as nat, 128);
    }
    let mut t: u128 = m;
    let mut n: u32 = 0;
    while t > 0
        invariant
            bit_len(m as nat) == n as nat + bit_len(t as nat),
            bit_len(m as nat) <= 128,
        decreases t,
    {
        assert(bit_len(t as nat) == 1 + bit_len(t as nat / 2));
        t = t / 2;
        n = n + 1;
    }
    n
}

} // verus!
