//! Random choices, drawn with the `rand` crate.
use crate::multiset_facts::lemma_swap_multiset;
use rand::Rng;
use vstd::prelude::*;

verus! {

/// Relies on `rand::rng().random_range(lo..hi)`: a number drawn uniformly from
/// `lo..hi`, which must not be empty (rand panics on an empty range).
#[verifier::external_body]
pub(crate) fn random_in(lo: usize, hi: usize) -> (r: usize)
    requires
        lo < hi,
    ensures
        lo <= r < hi,
{
    rand::rng().random_range(lo..hi)
}

/// Shuffles `arr` in place: each position `i` from the front, but the last
/// two, swaps with a random position in `i..len - 1`. The items stay the same.
pub fn permute<T: Copy>(arr: &mut [T])
    ensures
        final(arr)@.len() == old(arr)@.len(),
        final(arr)@.to_multiset() == old(arr)@.to_multiset(),
{
    let len = arr.len();
    if len <= 1 {
        return;
    }
    let end = len - 1;
    let mut i: usize = 0;
    while i < len - 2
        invariant
            len == arr@.len(),
            len == old(arr)@.len(),
            end == len - 1,
            len >= 2,
            arr@.to_multiset() == old(arr)@.to_multiset(),
        decreases len - 2 - i,
    {
        let j = random_in(i, end);
        let ghost before = arr@;
        let tmp = arr[i];
        arr[i] = arr[j];
        arr[j] = tmp;
        proof {
            lemma_swap_multiset(before, i as int, j as int);
            assert(arr@ == before.update(i as int, before[j as int]).update(j as int, before[i as int]));
        }
        i = i + 1;
    }
}

} // verus!
