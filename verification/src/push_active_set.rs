//! Buckets of stake by which the push active set picks gossip peers.

use vstd::prelude::*;

verus! {

/// Lamports in one SOL.
pub const LAMPORTS_PER_SOL: u64 = 1_000_000_000;

/// The number of entries of the push active set, one per stake bucket.
pub const NUM_PUSH_ACTIVE_SET_ENTRIES: usize = 25;

/// The number of binary digits of `n`: zero for zero.
pub open spec fn bit_length(n: nat) -> nat
    decreases n,
{
    if n == 0 { 0 } else { 1 + bit_length(n / 2) }
}

proof fn lemma_leading_zeros(n: u64)
    ensures
        vstd::std_specs::bits::u64_leading_zeros(n) == 64 - bit_length(n as nat),
        bit_length(n as nat) <= 64,
    decreases n,
{
    reveal(vstd::std_specs::bits::u64_leading_zeros);
    if n != 0 {
        lemma_leading_zeros(n / 2);
        assert(bit_length((n / 2) as nat) <= 63) by {
            vstd::arithmetic::power2::lemma2_to64_rest();
            assert(n / 2 < 0x8000_0000_0000_0000);
            lemma_bit_length_bound((n / 2) as nat, 63);
        }
    }
}

proof fn lemma_bit_length_bound(n: nat, k: nat)
    requires
        n < vstd::arithmetic::power2::pow2(k),
    ensures
        bit_length(n) <= k,
    decreases n,
{
    vstd::arithmetic::power2::lemma_pow2_pos(k);
    if n > 0 {
        if k == 0 {
            vstd::arithmetic::power2::lemma2_to64();
        } else {
            vstd::arithmetic::power2::lemma_pow2_unfold(k);
            lemma_bit_length_bound(n / 2, (k - 1) as nat);
        }
    }
}

/// The stake bucket of a stake: the number of binary digits of the stake
/// in whole SOL, at most the last bucket; no stake counts as zero.
pub open spec fn stake_bucket(stake: Option<u64>) -> usize {
    let sol = match stake {
        Some(s) => s / LAMPORTS_PER_SOL,
        None => 0,
    };
    let b = bit_length(sol as nat);
    if b < NUM_PUSH_ACTIVE_SET_ENTRIES - 1 { b as usize } else { (NUM_PUSH_ACTIVE_SET_ENTRIES - 1) as usize }
}

/// The stake bucket of a stake.
pub fn get_stake_bucket(stake: Option<&u64>) -> (r: usize)
    ensures
        r == stake_bucket(match stake {
            Some(s) => Some(*s),
            None => None,
        }),
        r < NUM_PUSH_ACTIVE_SET_ENTRIES,
{
    let stake: u64 = match stake {
        Some(s) => *s,
        None => 0,
    } / LAMPORTS_PER_SOL;
    let zeros = stake.leading_zeros();
    proof {
        lemma_leading_zeros(stake);
    }
    let bucket = 64 - zeros;
    if (bucket as usize) < NUM_PUSH_ACTIVE_SET_ENTRIES - 1 {
        bucket as usize
    } else {
        NUM_PUSH_ACTIVE_SET_ENTRIES - 1
    }
}

} // verus!
