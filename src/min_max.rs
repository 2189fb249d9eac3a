//! Positions of the smallest and the largest item, found with about `3n/2`
//! comparisons: items are compared in pairs first, then only the larger of
//! each pair competes for the maximum and the smaller for the minimum.
use crate::order::{greater, le, lemma_le_total, total_order};
use vstd::prelude::*;

verus! {

/// The candidate chosen from the pair that holds position `k`.
pub open spec fn winner(cand: Seq<usize>, k: int) -> int {
    cand[k / 2] as int
}

/// `cand[u]` is the first largest item of the pair `2u, 2u + 1` of `arr`
/// (a lone last item forms a pair by itself).
#[verifier::opaque]
pub open spec fn max_candidates<T: PartialOrd>(arr: Seq<T>, cand: Seq<usize>) -> bool {
    &&& cand.len() == (arr.len() + 1) / 2
    &&& forall|u: int| 0 <= u < cand.len() ==> 2 * u <= #[trigger] cand[u] <= 2 * u + 1 && cand[u] < arr.len()
    &&& forall|k: int|
        0 <= k < arr.len() ==> le(arr[k], arr[#[trigger] winner(cand, k)]) && (k < winner(cand, k) ==> !le(
            arr[winner(cand, k)],
            arr[k],
        ))
}

/// `cand[u]` is the first smallest item of the pair `2u, 2u + 1` of `arr`.
#[verifier::opaque]
pub open spec fn min_candidates<T: PartialOrd>(arr: Seq<T>, cand: Seq<usize>) -> bool {
    &&& cand.len() == (arr.len() + 1) / 2
    &&& forall|u: int| 0 <= u < cand.len() ==> 2 * u <= #[trigger] cand[u] <= 2 * u + 1 && cand[u] < arr.len()
    &&& forall|k: int|
        0 <= k < arr.len() ==> le(arr[#[trigger] winner(cand, k)], arr[k]) && (k < winner(cand, k) ==> !le(
            arr[k],
            arr[winner(cand, k)],
        ))
}

/// Candidate `u` is an index of `arr`, and one of `2u`, `2u + 1`.
pub open spec fn in_bounds(arr_len: int, cand: Seq<usize>) -> bool {
    forall|u: int| 0 <= u < cand.len() ==> #[trigger] cand[u] < arr_len && 2 * u <= cand[u] <= 2 * u + 1
}

/// Compares the items of `arr` two by two.
fn pair_candidates<T: PartialOrd + Copy>(arr: &[T]) -> (r: (Vec<usize>, Vec<usize>))
    requires
        total_order::<T>(),
    ensures
        min_candidates(arr@, r.0@),
        max_candidates(arr@, r.1@),
        r.0@.len() > 0 || arr@.len() == 0,
        r.1@.len() > 0 || arr@.len() == 0,
        in_bounds(arr@.len() as int, r.0@),
        in_bounds(arr@.len() as int, r.1@),
{
    let len = arr.len();
    let len_half = len / 2;
    let mut max_arr: Vec<usize> = Vec::with_capacity(len_half + 1);
    let mut min_arr: Vec<usize> = Vec::with_capacity(len_half + 1);
    let mut i: usize = 0;
    while i < len_half
        invariant
            total_order::<T>(),
            len == arr@.len(),
            len_half == len / 2,
            i <= len_half,
            max_arr@.len() == i,
            min_arr@.len() == i,
            forall|u: int| 0 <= u < i ==> 2 * u <= #[trigger] max_arr@[u] <= 2 * u + 1,
            forall|u: int| 0 <= u < i ==> 2 * u <= #[trigger] min_arr@[u] <= 2 * u + 1,
            forall|k: int|
                0 <= k < 2 * i ==> le(#[trigger] arr@[k], arr@[max_arr@[k / 2] as int]) && (k
                    < max_arr@[k / 2] ==> !le(arr@[max_arr@[k / 2] as int], arr@[k])),
            forall|k: int|
                0 <= k < 2 * i ==> le(arr@[min_arr@[k / 2] as int], #[trigger] arr@[k]) && (k
                    < min_arr@[k / 2] ==> !le(arr@[k], arr@[min_arr@[k / 2] as int])),
        decreases len_half - i,
    {
        let i1 = 2 * i;
        let i2 = i1 + 1;
        proof {
            lemma_le_total(arr@[i1 as int], arr@[i2 as int]);
            lemma_le_total(arr@[i1 as int], arr@[i1 as int]);
            lemma_le_total(arr@[i2 as int], arr@[i2 as int]);
        }
        if greater(&arr[i1], &arr[i2]) {
            max_arr.push(i1);
            min_arr.push(i2);
        } else if greater(&arr[i2], &arr[i1]) {
            max_arr.push(i2);
            min_arr.push(i1);
        } else {
            max_arr.push(i1);
            min_arr.push(i1);
        }
        i = i + 1;
    }
    if len % 2 == 1 {
        let last = len - 1;
        proof {
            lemma_le_total(arr@[last as int], arr@[last as int]);
        }
        max_arr.push(last);
        min_arr.push(last);
    }
    proof {
        reveal(max_candidates);
        reveal(min_candidates);
        assert forall|k: int| 0 <= k < len implies le(arr@[k], arr@[#[trigger] winner(max_arr@, k)]) && (k < winner(max_arr@, k) ==> !le(arr@[winner(max_arr@, k)], arr@[k])) by {
            assert(le(arr@[k], arr@[max_arr@[k / 2] as int]));
        }
        assert forall|k: int| 0 <= k < len implies le(arr@[#[trigger] winner(min_arr@, k)], arr@[k]) && (k < winner(min_arr@, k) ==> !le(arr@[k], arr@[winner(min_arr@, k)])) by {
            assert(le(arr@[min_arr@[k / 2] as int], arr@[k]));
        }
    }
    (min_arr, max_arr)
}

/// The winner of the pair winners is the first largest item.
proof fn lemma_first_max<T: PartialOrd>(arr: Seq<T>, cand: Seq<usize>, at: int)
    requires
        total_order::<T>(),
        max_candidates(arr, cand),
        in_bounds(arr.len() as int, cand),
        0 <= at < cand.len(),
        forall|u: int| 0 <= u < cand.len() ==> le(arr[#[trigger] cand[u] as int], arr[cand[at] as int]),
        forall|u: int|
            0 <= u < cand.len() && #[trigger] cand[u] < cand[at] ==> !le(arr[cand[at] as int], arr[cand[u] as int]),
    ensures
        forall|k: int| 0 <= k < arr.len() ==> le(#[trigger] arr[k], arr[cand[at] as int]),
        forall|k: int| 0 <= k < cand[at] ==> !le(arr[cand[at] as int], #[trigger] arr[k]),
{
    reveal(max_candidates);
    let i = cand[at] as int;
    assert forall|k: int| 0 <= k < arr.len() implies le(#[trigger] arr[k], arr[i]) by {
        let w = winner(cand, k);
        assert(le(arr[k], arr[w]));
        assert(le(arr[w], arr[i]));
    }
    assert forall|k: int| 0 <= k < i implies !le(arr[i], #[trigger] arr[k]) by {
        let p = k / 2;
        let w = winner(cand, k);
        if p != at {
            assert(cand[p] < i);
            if le(arr[i], arr[k]) {
                assert(le(arr[k], arr[w]));
            }
        } else {
            assert(w == i);
        }
    }
}

/// The winner of the pair losers is the first smallest item.
proof fn lemma_first_min<T: PartialOrd>(arr: Seq<T>, cand: Seq<usize>, at: int)
    requires
        total_order::<T>(),
        min_candidates(arr, cand),
        in_bounds(arr.len() as int, cand),
        0 <= at < cand.len(),
        forall|u: int| 0 <= u < cand.len() ==> le(arr[cand[at] as int], arr[#[trigger] cand[u] as int]),
        forall|u: int|
            0 <= u < cand.len() && #[trigger] cand[u] < cand[at] ==> !le(arr[cand[u] as int], arr[cand[at] as int]),
    ensures
        forall|k: int| 0 <= k < arr.len() ==> le(arr[cand[at] as int], #[trigger] arr[k]),
        forall|k: int| 0 <= k < cand[at] ==> !le(#[trigger] arr[k], arr[cand[at] as int]),
{
    reveal(min_candidates);
    let i = cand[at] as int;
    assert forall|k: int| 0 <= k < arr.len() implies le(arr[i], #[trigger] arr[k]) by {
        let w = winner(cand, k);
        assert(le(arr[w], arr[k]));
        assert(le(arr[i], arr[w]));
    }
    assert forall|k: int| 0 <= k < i implies !le(#[trigger] arr[k], arr[i]) by {
        let p = k / 2;
        let w = winner(cand, k);
        if p != at {
            assert(cand[p] < i);
            if le(arr[k], arr[i]) {
                assert(le(arr[w], arr[k]));
            }
        } else {
            assert(w == i);
        }
    }
}

/// The first largest item of `arr`, among the pair winners.
fn first_max<T: PartialOrd + Copy>(arr: &[T], max_arr: &Vec<usize>) -> (r: usize)
    requires
        total_order::<T>(),
        max_arr@.len() > 0,
        max_candidates(arr@, max_arr@),
        in_bounds(arr@.len() as int, max_arr@),
    ensures
        r < arr@.len(),
        forall|k: int| 0 <= k < arr@.len() ==> le(#[trigger] arr@[k], arr@[r as int]),
        forall|k: int| 0 <= k < r ==> !le(arr@[r as int], #[trigger] arr@[k]),
{
    let m = max_arr.len();
    let mut i_of_max = max_arr[0];
    let ghost mut max_at: int = 0;
    let mut reference_value = arr[i_of_max];
    let mut t: usize = 1;
    proof {
        lemma_le_total(arr@[i_of_max as int], arr@[i_of_max as int]);
    }
    while t < m
        invariant
            total_order::<T>(),
            in_bounds(arr@.len() as int, max_arr@),
            m == max_arr@.len(),
            1 <= t <= m,
            0 <= max_at < t,
            i_of_max == max_arr@[max_at],
            reference_value == arr@[i_of_max as int],
            forall|u: int| 0 <= u < t ==> le(arr@[#[trigger] max_arr@[u] as int], reference_value),
            forall|u: int|
                0 <= u < t && #[trigger] max_arr@[u] < i_of_max ==> !le(reference_value, arr@[max_arr@[u] as int]),
        decreases m - t,
    {
        let idx = max_arr[t];
        let tmp_value = arr[idx];
        if greater(&tmp_value, &reference_value) {
            proof {
                lemma_le_total(tmp_value, reference_value);
                lemma_le_total(tmp_value, tmp_value);
                assert forall|u: int| 0 <= u < t + 1 && #[trigger] max_arr@[u] < idx implies !le(tmp_value, arr@[max_arr@[u] as int]) by {
                    if le(tmp_value, arr@[max_arr@[u] as int]) {
                        assert(le(arr@[max_arr@[u] as int], reference_value));
                    }
                }
                max_at = t as int;
            }
            reference_value = tmp_value;
            i_of_max = idx;
        } else {
            proof {
                lemma_le_total(tmp_value, reference_value);
            }
        }
        t = t + 1;
    }
    proof {
        lemma_first_max(arr@, max_arr@, max_at);
    }
    i_of_max
}

/// The first smallest item of `arr`, among the pair losers.
fn first_min<T: PartialOrd + Copy>(arr: &[T], min_arr: &Vec<usize>) -> (r: usize)
    requires
        total_order::<T>(),
        min_arr@.len() > 0,
        min_candidates(arr@, min_arr@),
        in_bounds(arr@.len() as int, min_arr@),
    ensures
        r < arr@.len(),
        forall|k: int| 0 <= k < arr@.len() ==> le(arr@[r as int], #[trigger] arr@[k]),
        forall|k: int| 0 <= k < r ==> !le(#[trigger] arr@[k], arr@[r as int]),
{
    let m = min_arr.len();
    let mut i_of_min = min_arr[0];
    let ghost mut min_at: int = 0;
    let mut reference_value = arr[i_of_min];
    let mut t: usize = 1;
    proof {
        lemma_le_total(arr@[i_of_min as int], arr@[i_of_min as int]);
    }
    while t < m
        invariant
            total_order::<T>(),
            in_bounds(arr@.len() as int, min_arr@),
            m == min_arr@.len(),
            1 <= t <= m,
            0 <= min_at < t,
            i_of_min == min_arr@[min_at],
            reference_value == arr@[i_of_min as int],
            forall|u: int| 0 <= u < t ==> le(reference_value, arr@[#[trigger] min_arr@[u] as int]),
            forall|u: int|
                0 <= u < t && #[trigger] min_arr@[u] < i_of_min ==> !le(arr@[min_arr@[u] as int], reference_value),
        decreases m - t,
    {
        let idx = min_arr[t];
        let tmp_value = arr[idx];
        if greater(&reference_value, &tmp_value) {
            proof {
                lemma_le_total(tmp_value, reference_value);
                lemma_le_total(tmp_value, tmp_value);
                assert forall|u: int| 0 <= u < t + 1 && #[trigger] min_arr@[u] < idx implies !le(arr@[min_arr@[u] as int], tmp_value) by {
                    if le(arr@[min_arr@[u] as int], tmp_value) {
                        assert(le(reference_value, arr@[min_arr@[u] as int]));
                    }
                }
                min_at = t as int;
            }
            reference_value = tmp_value;
            i_of_min = idx;
        } else {
            proof {
                lemma_le_total(tmp_value, reference_value);
            }
        }
        t = t + 1;
    }
    proof {
        lemma_first_min(arr@, min_arr@, min_at);
    }
    i_of_min
}

/// The positions `(min, max)` of the first smallest and the first largest
/// item of `arr`; `None` when `arr` is empty.
pub fn min_max<T: PartialOrd + Copy>(arr: &[T]) -> (r: Option<(usize, usize)>)
    requires
        total_order::<T>(),
    ensures
        arr@.len() == 0 <==> r is None,
        r matches Some((mi, ma)) ==> {
            &&& mi < arr@.len()
            &&& ma < arr@.len()
            &&& forall|k: int| 0 <= k < arr@.len() ==> le(arr@[mi as int], #[trigger] arr@[k])
            &&& forall|k: int| 0 <= k < arr@.len() ==> le(#[trigger] arr@[k], arr@[ma as int])
            &&& forall|k: int| 0 <= k < mi ==> !le(#[trigger] arr@[k], arr@[mi as int])
            &&& forall|k: int| 0 <= k < ma ==> !le(arr@[ma as int], #[trigger] arr@[k])
        },
{
    if arr.len() == 0 {
        return None;
    }
    let (min_arr, max_arr) = pair_candidates(arr);
    let i_of_max = first_max(arr, &max_arr);
    let i_of_min = first_min(arr, &min_arr);
    Some((i_of_min, i_of_max))
}

} // verus!
