//! Population count and single-bit reasoning over 64-bit words.
//!
//! The whole engine stores board occupancy as `u64` bit sets, so disc
//! counts are population counts and square tests are single-bit tests.

use vstd::prelude::*;

verus! {

/// Number of set bits in the binary representation of `n`.
pub open spec fn pop_nat(n: nat) -> nat
    decreases n,
{
    if n == 0 {
        0
    } else {
        n % 2 + pop_nat(n / 2)
    }
}

/// Number of set bits of a 64-bit word.
pub open spec fn pop64(x: u64) -> nat {
    pop_nat(x as nat)
}

/// Square test: bit `i` of `x`, for squares `0..64`.
pub open spec fn bit64(x: u64, i: u64) -> bool {
    i < 64 && (x >> i) & 1 == 1
}

/// A word with at most `k` binary digits has at most `k` set bits.
pub proof fn lemma_pop_nat_bound(n: nat, k: nat)
    requires
        n < vstd::arithmetic::power2::pow2(k),
    ensures
        pop_nat(n) <= k,
    decreases k,
{
    if k == 0 {
        vstd::arithmetic::power2::lemma_pow2_unfold(1);
        assert(vstd::arithmetic::power2::pow2(0) == 1) by {
            vstd::arithmetic::power2::lemma2_to64();
        }
    } else {
        vstd::arithmetic::power2::lemma_pow2_unfold(k);
        lemma_pop_nat_bound(n / 2, (k - 1) as nat);
    }
}

/// A 64-bit word has at most 64 set bits.
pub proof fn lemma_pop64_bound(x: u64)
    ensures
        pop64(x) <= 64,
{
    assert(x < vstd::arithmetic::power2::pow2(64)) by {
        vstd::arithmetic::power2::lemma2_to64_rest();
    }
    lemma_pop_nat_bound(x as nat, 64);
}

/// Popcount distributes over a union of disjoint bit sets.
pub proof fn lemma_pop64_disjoint_union(a: u64, b: u64)
    requires
        a & b == 0,
    ensures
        pop64(a | b) == pop64(a) + pop64(b),
    decreases (a as nat) + (b as nat),
{
    if a == 0 && b == 0 {
        assert(a | b == 0) by (bit_vector)
            requires
                a == 0 && b == 0,
        ;
    } else {
        assert((a >> 1) & (b >> 1) == 0) by (bit_vector)
            requires
                a & b == 0,
        ;
        assert(a >> 1 == a / 2 && b >> 1 == b / 2 && (a | b) >> 1 == (a >> 1) | (b >> 1) && (a | b)
            >> 1 == (a | b) / 2) by (bit_vector);
        assert(((a >> 1) as nat) + ((b >> 1) as nat) < (a as nat) + (b as nat));
        lemma_pop64_disjoint_union(a >> 1, b >> 1);
        assert((a | b) % 2 == a % 2 + b % 2) by (bit_vector)
            requires
                a & b == 0,
        ;
        assert(a | b != 0) by (bit_vector)
            requires
                !(a == 0 && b == 0),
        ;
    }
}

/// A subset can be split off a popcount.
pub proof fn lemma_pop64_remove_subset(a: u64, b: u64)
    requires
        b & a == b,
    ensures
        pop64(a & !b) == pop64(a) - pop64(b),
        pop64(b) <= pop64(a),
{
    assert((a & !b) & b == 0) by (bit_vector);
    assert((a & !b) | b == a) by (bit_vector)
        requires
            b & a == b,
    ;
    lemma_pop64_disjoint_union(a & !b, b);
}

/// A nonzero bit set with no two discs is exactly one disc.
pub proof fn lemma_pop64_singleton(x: u64)
    requires
        x != 0,
        x & ((x - 1) as u64) == 0,
    ensures
        pop64(x) == 1,
    decreases x,
{
    if x == 1 {
        assert(pop_nat(0) == 0);
        assert(pop_nat(1) == 1 + pop_nat(0));
    } else {
        assert(x % 2 == 0 && (x >> 1) != 0 && (x >> 1) & (((x >> 1) - 1) as u64) == 0 && x >> 1 == x
            / 2 && x >> 1 < x) by (bit_vector)
            requires
                x != 0 && x != 1 && x & ((x - 1) as u64) == 0,
        ;
        lemma_pop64_singleton(x >> 1);
        assert(pop_nat(x as nat) == 0 + pop_nat((x as nat) / 2));
    }
}

/// Bitwise conjunction, disjunction and their complements do not care
/// about argument order.
pub proof fn lemma_bit_comm(a: u64, b: u64)
    by (bit_vector)
    ensures
        a & b == b & a,
        a | b == b | a,
        !(a | b) == !(b | a),
{
}

/// The empty bit set is neutral for disjunction and absorbing for
/// conjunction, and has no bit at any index.
pub proof fn lemma_zero_bits(a: u64, j: u64)
    by (bit_vector)
    ensures
        a | 0u64 == a,
        0u64 | a == a,
        a & 0u64 == 0,
        0u64 & a == 0,
        0u64 & !a == 0,
        (0u64 >> j) & 1 == 0,
        0u64 >> j == 0,
        0u64 << j == 0,
{
}

/// A set square of `moves` names a single nonzero disc, lying outside
/// any set that `moves` avoids.
pub proof fn lemma_move_disk(moves: u64, occ: u64, t: u64)
    by (bit_vector)
    requires
        t < 64,
        (moves >> t) & 1 == 1,
    ensures
        1u64 << t != 0,
        (1u64 << t) & (((1u64 << t) - 1) as u64) == 0,
        (1u64 << t) & moves == 1u64 << t,
        moves & occ == 0 ==> (1u64 << t) & occ == 0,
{
}

/// Two single discs on the same square came from the same index.
pub proof fn lemma_shift_injective(a: u64, b: u64)
    by (bit_vector)
    requires
        a < 64,
        b < 64,
        1u64 << a == 1u64 << b,
    ensures
        a == b,
{
}

/// Counts the set bits of `x`, one low bit at a time.
pub fn popcount(x: u64) -> (n: u32)
    ensures
        n == pop64(x),
{
    proof {
        lemma_pop64_bound(x);
    }
    let mut v: u64 = x;
    let mut n: u32 = 0;
    while v != 0
        invariant
            n + pop64(v) == pop64(x),
            pop64(x) <= 64,
        decreases v,
    {
        proof {
            assert(v & 1 == v % 2 && v >> 1 == v / 2) by (bit_vector);
            assert(v >> 1 < v) by (bit_vector)
                requires
                    v != 0,
            ;
            assert(pop64(v) == (v % 2) + pop_nat((v as nat) / 2));
        }
        n = n + (v & 1) as u32;
        v = v >> 1;
    }
    n
}

} // verus!
