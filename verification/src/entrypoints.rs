//! Asking the cluster's entrypoints for its shred version: in an order that
//! chance decides, until one gives a version that is not zero.

use vstd::prelude::*;
use rand::rngs::ThreadRng;
use rand::seq::SliceRandom;

verus! {

/// `SliceRandom::shuffle` on a vector of indices. Its source swaps each
/// position, from the last down, with one at random at or before it, so the
/// vector ends with the same indices; their order is left to chance and is
/// not stated.
#[verifier::external_body]
fn shuffle_indices(v: &mut Vec<usize>, rng: &mut ThreadRng)
    ensures
        final(v)@.to_multiset() == old(v)@.to_multiset(),
{
    v.shuffle(rng);
}

/// The order in which `n` entrypoints are asked: each index below `n`
/// once, in an order that chance decides.
pub fn entrypoint_order(rng: &mut ThreadRng, n: usize) -> (r: Vec<usize>)
    ensures
        r@.len() == n,
        r@.no_duplicates(),
        forall|x: usize| #[trigger] r@.contains(x) <==> x < n,
{
    let mut index: Vec<usize> = Vec::new();
    let mut i: usize = 0;
    while i < n
        invariant
            i <= n,
            index@.len() == i,
            forall|k: int| 0 <= k < i ==> #[trigger] index@[k] == k,
        decreases n - i,
    {
        index.push(i);
        i += 1;
    }
    let ghost s0 = index@;
    proof {
        assert(s0.no_duplicates());
        s0.lemma_multiset_has_no_duplicates();
        s0.to_multiset_ensures();
        assert forall|x: usize| #[trigger] s0.contains(x) <==> x < n by {
            if x < n {
                assert(s0[x as int] == x);
            }
        }
    }
    shuffle_indices(&mut index, rng);
    proof {
        index@.to_multiset_ensures();
        index@.lemma_multiset_has_no_duplicates_conv();
        assert forall|x: usize| #[trigger] index@.contains(x) <==> x < n by {
            assert(index@.to_multiset().count(x) == s0.to_multiset().count(x));
            assert(s0.contains(x) <==> s0.to_multiset().count(x) > 0);
        }
    }
    index
}

/// What the reply of an entrypoint gives: a shred version that is not zero;
/// nothing when it answered zero or not at all, and the next one is asked.
pub open spec fn shred_version_reply(reply: Option<u16>) -> Option<u16> {
    match reply {
        Some(v) => if v != 0 { Some(v) } else { None },
        None => None,
    }
}

/// The shred version taken from an entrypoint's reply (see
/// [`shred_version_reply`]).
pub fn shred_version_from_reply(reply: Option<u16>) -> (r: Option<u16>)
    ensures
        r == shred_version_reply(reply),
{
    match reply {
        Some(v) => if v != 0 { Some(v) } else { None },
        None => None,
    }
}

} // verus!
