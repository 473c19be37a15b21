use vstd::arithmetic::power2::*;
use vstd::prelude::*;

verus! {

/// Number of one bits in `x`.
pub open spec fn popcount(x: u64) -> nat
    decreases x,
{
    if x == 0 {
        0
    } else {
        (x % 2) as nat + popcount(x / 2)
    }
}

/// Hamming distance between two codes: the number of bit positions where
/// they differ.
pub open spec fn hamming(a: u64, b: u64) -> nat {
    popcount(a ^ b)
}

proof fn lemma_popcount_below(x: u64, k: nat)
    requires
        (x as nat) < pow2(k),
    ensures
        popcount(x) <= k,
    decreases k,
{
    if x != 0 {
        if k == 0 {
            lemma_pow2_pos(0);
            assert(pow2(0) == 1) by {
                lemma2_to64();
            }
        } else {
            lemma_pow2_unfold(k);
            lemma_popcount_below(x / 2, (k - 1) as nat);
        }
    }
}

/// A Hamming distance never exceeds the width of a code.
pub proof fn lemma_hamming_at_most_64(a: u64, b: u64)
    ensures
        hamming(a, b) <= 64,
{
    lemma2_to64();
    lemma_popcount_below(a ^ b, 64);
}

proof fn lemma_popcount_zero(x: u64)
    ensures
        popcount(x) == 0 <==> x == 0,
    decreases x,
{
    if x != 0 {
        lemma_popcount_zero(x / 2);
    }
}

/// Two codes are at distance zero exactly when they are equal.
pub proof fn lemma_hamming_zero(a: u64, b: u64)
    ensures
        hamming(a, b) == 0 <==> a == b,
{
    lemma_popcount_zero(a ^ b);
    assert((a ^ b) == 0 <==> a == b) by (bit_vector);
}

/// Hamming distance between `a` and `b`.
pub fn hamming_distance(a: u64, b: u64) -> (r: u32)
    ensures
        r as nat == hamming(a, b),
{
    proof {
        lemma_hamming_at_most_64(a, b);
    }
    let mut x: u64 = a ^ b;
    let mut count: u32 = 0;
    while x != 0
        invariant
            count as nat + popcount(x) == hamming(a, b),
            hamming(a, b) <= 64,
        decreases x,
    {
        count = count + (x % 2) as u32;
        x = x / 2;
    }
    count
}

} // verus!
