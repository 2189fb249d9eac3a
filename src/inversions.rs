//! Counting the inversions of a sequence, the pairs of items that stand in
//! the wrong order, with a merge sort.
use crate::multiset_facts::{lemma_range_multiset, lemma_whole_multiset};
use crate::sort::rearranged_within;
use crate::order::{greater, le, lemma_le_total, total_order};
use vstd::prelude::*;

verus! {

broadcast use vstd::seq_lib::group_to_multiset_ensures;

/// The order against which inversions are counted.
#[derive(Debug, Clone, Copy)]
pub enum Order {
    Increasing,
    Decreasing,
}

/// `first` before `second` is an inversion under `order`.
pub open spec fn inverted<T: PartialOrd>(order: Order, first: T, second: T) -> bool {
    match order {
        Order::Increasing => !le(first, second),
        Order::Decreasing => !le(second, first),
    }
}

/// The sum of `f` over the items of `s`.
pub open spec fn sum_of<T>(s: Seq<T>, f: spec_fn(T) -> nat) -> nat
    decreases s.len(),
{
    if s.len() == 0 {
        0
    } else {
        sum_of(s.drop_last(), f) + f(s.last())
    }
}

/// How many items of `s` are inverted with `x` placed after them.
pub open spec fn count_inverted<T: PartialOrd>(order: Order, s: Seq<T>, x: T) -> nat {
    sum_of(s, |y: T| if inverted(order, y, x) { 1nat } else { 0nat })
}

/// The number of pairs `i < j` with `s[i]`, `s[j]` inverted.
pub open spec fn inversions<T: PartialOrd>(order: Order, s: Seq<T>) -> nat
    decreases s.len(),
{
    if s.len() == 0 {
        0
    } else {
        inversions(order, s.drop_last()) + count_inverted(order, s.drop_last(), s.last())
    }
}

/// The inverted pairs with the first item in `a` and the second in `b`.
pub open spec fn cross<T: PartialOrd>(order: Order, a: Seq<T>, b: Seq<T>) -> nat {
    sum_of(b, |y: T| count_inverted(order, a, y))
}

/// Not being inverted is a total preorder.
proof fn lemma_inverted_laws<T: PartialOrd>(order: Order)
    requires
        total_order::<T>(),
    ensures
        forall|a: T, b: T| !#[trigger] inverted(order, a, b) || !inverted(order, b, a),
        forall|a: T| !#[trigger] inverted(order, a, a),
        forall|a: T, b: T, c: T|
            !#[trigger] inverted(order, a, b) && !#[trigger] inverted(order, b, c) ==> !inverted(order, a, c),
{
    assert forall|a: T, b: T| !#[trigger] inverted(order, a, b) || !inverted(order, b, a) by {
        lemma_le_total(a, b);
    }
    assert forall|a: T| !#[trigger] inverted(order, a, a) by {
        lemma_le_total(a, a);
    }
    assert forall|a: T, b: T, c: T|
        !#[trigger] inverted(order, a, b) && !#[trigger] inverted(order, b, c) implies !inverted(order, a, c) by {
        match order {
            Order::Increasing => {},
            Order::Decreasing => {
                assert(le(c, b) && le(b, a));
            },
        }
    }
}

proof fn lemma_sum_concat<T>(a: Seq<T>, b: Seq<T>, f: spec_fn(T) -> nat)
    ensures
        sum_of(a + b, f) == sum_of(a, f) + sum_of(b, f),
    decreases b.len(),
{
    if b.len() == 0 {
        assert(a + b =~= a);
    } else {
        assert((a + b).drop_last() =~= a + b.drop_last());
        lemma_sum_concat(a, b.drop_last(), f);
    }
}

proof fn lemma_sum_remove<T>(s: Seq<T>, i: int, f: spec_fn(T) -> nat)
    requires
        0 <= i < s.len(),
    ensures
        sum_of(s, f) == sum_of(s.remove(i), f) + f(s[i]),
    decreases s.len(),
{
    if i == s.len() - 1 {
        assert(s.remove(i) =~= s.drop_last());
    } else {
        assert(s.remove(i).drop_last() =~= s.drop_last().remove(i));
        assert(s.remove(i).last() == s.last());
        lemma_sum_remove(s.drop_last(), i, f);
    }
}

/// A sum over the items does not depend on their order.
proof fn lemma_sum_permutation<T>(a: Seq<T>, b: Seq<T>, f: spec_fn(T) -> nat)
    requires
        a.to_multiset() == b.to_multiset(),
    ensures
        sum_of(a, f) == sum_of(b, f),
    decreases a.len(),
{
    broadcast use vstd::multiset::group_multiset_axioms;

    assert(a.to_multiset().len() == a.len());
    assert(b.to_multiset().len() == b.len());
    if a.len() > 0 {
        let x = a.last();
        assert(a.contains(x));
        assert(b.to_multiset().count(x) > 0);
        assert(b.contains(x));
        let i = choose|i: int| 0 <= i < b.len() && b[i] == x;
        assert(a =~= a.drop_last().push(x));
        assert(a.drop_last().to_multiset() =~= a.to_multiset().remove(x));
        assert(b.remove(i).to_multiset() == b.to_multiset().remove(x));
        lemma_sum_permutation(a.drop_last(), b.remove(i), f);
        lemma_sum_remove(b, i, f);
    }
}

/// A sum of 0 or 1 that is 0 on the first `k` items and 1 on the others.
proof fn lemma_sum_step<T>(s: Seq<T>, k: int, f: spec_fn(T) -> nat)
    requires
        0 <= k <= s.len(),
        forall|j: int| 0 <= j < k ==> f(#[trigger] s[j]) == 0,
        forall|j: int| k <= j < s.len() ==> f(#[trigger] s[j]) == 1,
    ensures
        sum_of(s, f) == s.len() - k,
    decreases s.len(),
{
    if s.len() > 0 {
        if k == s.len() {
            lemma_sum_step(s.drop_last(), k - 1, f);
        } else {
            lemma_sum_step(s.drop_last(), k, f);
        }
    }
}

/// The inversions of two parts joined are those within each part and those
/// across.
proof fn lemma_inversions_concat<T: PartialOrd>(order: Order, a: Seq<T>, b: Seq<T>)
    ensures
        inversions(order, a + b) == inversions(order, a) + inversions(order, b) + cross(order, a, b),
    decreases b.len(),
{
    if b.len() == 0 {
        assert(a + b =~= a);
    } else {
        let x = b.last();
        assert((a + b).drop_last() =~= a + b.drop_last());
        assert((a + b).last() == x);
        lemma_inversions_concat(order, a, b.drop_last());
        lemma_sum_concat(a, b.drop_last(), |y: T| if inverted(order, y, x) { 1nat } else { 0nat });
    }
}

/// A count is at most the length.
proof fn lemma_count_le<T: PartialOrd>(order: Order, s: Seq<T>, x: T)
    ensures
        count_inverted(order, s, x) <= s.len(),
    decreases s.len(),
{
    if s.len() > 0 {
        lemma_count_le(order, s.drop_last(), x);
    }
}

/// At most `n * n` pairs of `n` items are inverted: a caller whose `n * n`
/// fits in `usize` meets the requirement of `calculate_inversions`.
pub proof fn lemma_inversions_le<T: PartialOrd>(order: Order, s: Seq<T>)
    ensures
        inversions(order, s) <= s.len() * s.len(),
    decreases s.len(),
{
    if s.len() > 0 {
        let n = s.len() as int;
        lemma_inversions_le(order, s.drop_last());
        lemma_count_le(order, s.drop_last(), s.last());
        assert((n - 1) * (n - 1) + (n - 1) <= n * n) by (nonlinear_arith)
            requires
                n >= 1,
        ;
    }
}

/// No two items of `s` at `lo..hi` are inverted: they are sorted by `order`.
pub open spec fn sorted_for<T: PartialOrd>(order: Order, s: Seq<T>, lo: int, hi: int) -> bool {
    forall|p: int, q: int| lo <= p < q < hi ==> !inverted(order, #[trigger] s[p], #[trigger] s[q])
}

/// The inverted pairs across two parts depend only on the items of each.
proof fn lemma_cross_permutation<T: PartialOrd>(order: Order, a1: Seq<T>, b1: Seq<T>, a2: Seq<T>, b2: Seq<T>)
    requires
        a1.to_multiset() == a2.to_multiset(),
        b1.to_multiset() == b2.to_multiset(),
    ensures
        cross(order, a1, b1) == cross(order, a2, b2),
{
    let f1 = |y: T| count_inverted(order, a1, y);
    let f2 = |y: T| count_inverted(order, a2, y);
    assert forall|y: T| #[trigger] f1(y) == f2(y) by {
        lemma_sum_permutation(a1, a2, |z: T| if inverted(order, z, y) { 1nat } else { 0nat });
    }
    assert(f1 =~= f2);
    lemma_sum_permutation(b1, b2, f1);
}

impl Order {
    /// `first` before `second` is an inversion.
    pub fn has_inversion<T: PartialOrd>(&self, first: &T, second: &T) -> (r: bool)
        requires
            total_order::<T>(),
        ensures
            r == inverted(*self, *first, *second),
    {
        match self {
            Order::Increasing => greater(first, second),
            Order::Decreasing => greater(second, first),
        }
    }
}

/// Merges the sorted parts `arr[lo..mid]` and `arr[mid..hi]` into
/// `aux[lo..hi]`, and returns how many pairs across the two parts are
/// inverted: each item taken from the right part counts the items still
/// waiting in the left part.
fn merge_counting<T: PartialOrd + Copy>(arr: &Vec<T>, aux: &mut Vec<T>, lo: usize, mid: usize, hi: usize, order: Order) -> (r: usize)
    requires
        total_order::<T>(),
        lo <= mid <= hi <= arr@.len(),
        old(aux)@.len() == arr@.len(),
        sorted_for(order, arr@, lo as int, mid as int),
        sorted_for(order, arr@, mid as int, hi as int),
        cross(order, arr@.subrange(lo as int, mid as int), arr@.subrange(mid as int, hi as int)) <= usize::MAX,
    ensures
        r == cross(order, arr@.subrange(lo as int, mid as int), arr@.subrange(mid as int, hi as int)),
        final(aux)@.len() == old(aux)@.len(),
        final(aux)@.subrange(lo as int, hi as int).to_multiset() == arr@.subrange(lo as int, hi as int).to_multiset(),
        sorted_for(order, final(aux)@, lo as int, hi as int),
{
    proof {
        lemma_inverted_laws::<T>(order);
    }
    let ghost s2 = arr@;
    let ghost sl = s2.subrange(lo as int, mid as int);
    let ghost sr = s2.subrange(mid as int, hi as int);
    proof {
        assert(sr.subrange(0, 0) =~= Seq::<T>::empty());
        assert(s2.subrange(lo as int, lo as int) =~= Seq::<T>::empty());
        assert(s2.subrange(mid as int, mid as int) =~= Seq::<T>::empty());
        assert(aux@.subrange(lo as int, lo as int) =~= Seq::<T>::empty());
    }
    let mut inversions_count: usize = 0;
    let mut left = lo;
    let mut right = mid;
    let mut i = lo;
    while left < mid && right < hi
        invariant
            total_order::<T>(),
            lo <= left <= mid <= right <= hi <= arr@.len(),
            i == lo + (left - lo) + (right - mid),
            arr@ == s2,
            aux@.len() == arr@.len(),
            sl == s2.subrange(lo as int, mid as int),
            sr == s2.subrange(mid as int, hi as int),
            sorted_for(order, s2, lo as int, mid as int),
            sorted_for(order, s2, mid as int, hi as int),
            cross(order, sl, sr) <= usize::MAX,
            inversions_count == cross(order, sl, sr.subrange(0, right - mid)),
            aux@.subrange(lo as int, i as int).to_multiset() == s2.subrange(lo as int, left as int).to_multiset().add(
                s2.subrange(mid as int, right as int).to_multiset(),
            ),
            sorted_for(order, aux@, lo as int, i as int),
            forall|p: int| lo <= p < i ==> (left < mid ==> !inverted(order, #[trigger] aux@[p], s2[left as int])) && (
            right < hi ==> !inverted(order, aux@[p], s2[right as int])),
            right < hi ==> forall|k: int| lo <= k < left ==> !inverted(order, #[trigger] s2[k], s2[right as int]),
        decreases hi - i,
    {
        let ghost a0 = aux@;
        let ghost j = right - mid;
        if order.has_inversion(&arr[left], &arr[right]) {
            proof {
                // every item of the left part from `left` on is inverted with
                // the head of the right part, and none before it
                let x = s2[right as int];
                let f = |y: T| if inverted(order, y, x) { 1nat } else { 0nat };
                assert forall|k: int| (left - lo) <= k < sl.len() implies f(#[trigger] sl[k]) == 1 by {
                    assert(!inverted(order, s2[left as int], s2[lo + k]) || left == lo + k);
                }
                assert forall|k: int| 0 <= k < (left - lo) implies f(#[trigger] sl[k]) == 0 by {
                    assert(!inverted(order, s2[lo + k], x));
                }
                lemma_sum_step(sl, left - lo, f);
                assert(sr.subrange(0, j + 1).drop_last() =~= sr.subrange(0, j));
                assert(sr.subrange(0, j + 1).last() == x);
                lemma_sum_concat(sr.subrange(0, j + 1), sr.subrange(j + 1, sr.len() as int), |y: T| count_inverted(order, sl, y));
                assert(sr =~= sr.subrange(0, j + 1) + sr.subrange(j + 1, sr.len() as int));
            }
            inversions_count += mid - left;
            aux[i] = arr[right];
            right += 1;
            proof {
                assert(s2.subrange(mid as int, right as int) =~= s2.subrange(mid as int, right - 1).push(s2[right - 1]));
                assert(aux@.subrange(lo as int, i + 1) =~= a0.subrange(lo as int, i as int).push(s2[right - 1]));
                assert(aux@.subrange(lo as int, i as int) =~= a0.subrange(lo as int, i as int));
            }
        } else {
            aux[i] = arr[left];
            left += 1;
            proof {
                assert(s2.subrange(lo as int, left as int) =~= s2.subrange(lo as int, left - 1).push(s2[left - 1]));
                assert(aux@.subrange(lo as int, i + 1) =~= a0.subrange(lo as int, i as int).push(s2[left - 1]));
                assert(aux@.subrange(lo as int, i as int) =~= a0.subrange(lo as int, i as int));
            }
        }
        i += 1;
    }
    while left < mid
        invariant
            total_order::<T>(),
            lo <= left <= mid <= right <= hi <= arr@.len(),
            left < mid ==> right == hi,
            i == lo + (left - lo) + (right - mid),
            arr@ == s2,
            aux@.len() == arr@.len(),
            sl == s2.subrange(lo as int, mid as int),
            sr == s2.subrange(mid as int, hi as int),
            sorted_for(order, s2, lo as int, mid as int),
            sorted_for(order, s2, mid as int, hi as int),
            inversions_count == cross(order, sl, sr.subrange(0, right - mid)),
            right < hi ==> forall|k: int| lo <= k < left ==> !inverted(order, #[trigger] s2[k], s2[right as int]),
            aux@.subrange(lo as int, i as int).to_multiset() == s2.subrange(lo as int, left as int).to_multiset().add(
                s2.subrange(mid as int, right as int).to_multiset(),
            ),
            sorted_for(order, aux@, lo as int, i as int),
            forall|p: int| lo <= p < i ==> (left < mid ==> !inverted(order, #[trigger] aux@[p], s2[left as int])) && (
            right < hi ==> !inverted(order, aux@[p], s2[right as int])),
        decreases mid - left,
    {
        let ghost a0 = aux@;
        aux[i] = arr[left];
        left += 1;
        proof {
            assert(s2.subrange(lo as int, left as int) =~= s2.subrange(lo as int, left - 1).push(s2[left - 1]));
            assert(aux@.subrange(lo as int, i + 1) =~= a0.subrange(lo as int, i as int).push(s2[left - 1]));
            assert(aux@.subrange(lo as int, i as int) =~= a0.subrange(lo as int, i as int));
        }
        i += 1;
    }
    while right < hi
        invariant
            total_order::<T>(),
            lo <= left <= mid <= right <= hi <= arr@.len(),
            left == mid,
            i == lo + (left - lo) + (right - mid),
            arr@ == s2,
            aux@.len() == arr@.len(),
            sl == s2.subrange(lo as int, mid as int),
            sr == s2.subrange(mid as int, hi as int),
            sorted_for(order, s2, mid as int, hi as int),
            inversions_count == cross(order, sl, sr.subrange(0, right - mid)),
            aux@.subrange(lo as int, i as int).to_multiset() == s2.subrange(lo as int, left as int).to_multiset().add(
                s2.subrange(mid as int, right as int).to_multiset(),
            ),
            sorted_for(order, aux@, lo as int, i as int),
            forall|p: int| lo <= p < i ==> (right < hi ==> !inverted(order, #[trigger] aux@[p], s2[right as int])),
            right < hi ==> forall|k: int| lo <= k < left ==> !inverted(order, #[trigger] s2[k], s2[right as int]),
        decreases hi - right,
    {
        let ghost a0 = aux@;
        proof {
            let j = right - mid;
            let x = s2[right as int];
            let f = |y: T| if inverted(order, y, x) { 1nat } else { 0nat };
            assert forall|k: int| 0 <= k < sl.len() implies f(#[trigger] sl[k]) == 0 by {
                assert(!inverted(order, s2[lo + k], x));
            }
            lemma_sum_step(sl, sl.len() as int, f);
            assert(sr.subrange(0, j + 1).drop_last() =~= sr.subrange(0, j));
            assert(sr.subrange(0, j + 1).last() == x);
        }
        aux[i] = arr[right];
        right += 1;
        proof {
            assert(s2.subrange(mid as int, right as int) =~= s2.subrange(mid as int, right - 1).push(s2[right - 1]));
            assert(aux@.subrange(lo as int, i + 1) =~= a0.subrange(lo as int, i as int).push(s2[right - 1]));
            assert(aux@.subrange(lo as int, i as int) =~= a0.subrange(lo as int, i as int));
        }
        i += 1;
    }
    proof {
        assert(s2.subrange(lo as int, hi as int) =~= s2.subrange(lo as int, mid as int) + s2.subrange(mid as int, hi as int));
        vstd::seq_lib::lemma_multiset_commutative(s2.subrange(lo as int, mid as int), s2.subrange(mid as int, hi as int));
        assert(sr.subrange(0, hi - mid) =~= sr);
    }
    inversions_count
}

/// Sorts `arr[lo..hi]` by merge sort, with `aux` as scratch space, and
/// returns how many inverted pairs it held.
fn merge_sort_to_calculate_inversions<T: PartialOrd + Copy>(
    arr: &mut Vec<T>,
    aux: &mut Vec<T>,
    lo: usize,
    hi: usize,
    order: Order,
) -> (r: usize)
    requires
        total_order::<T>(),
        lo <= hi <= old(arr)@.len(),
        old(aux)@.len() == old(arr)@.len(),
        inversions(order, old(arr)@.subrange(lo as int, hi as int)) <= usize::MAX,
    ensures
        r == inversions(order, old(arr)@.subrange(lo as int, hi as int)),
        rearranged_within(old(arr)@, final(arr)@, lo as int, hi as int),
        sorted_for(order, final(arr)@, lo as int, hi as int),
        final(aux)@.len() == old(aux)@.len(),
    decreases hi - lo,
{
    proof {
        lemma_inverted_laws::<T>(order);
    }
    if hi - lo <= 1 {
        proof {
            let s = old(arr)@.subrange(lo as int, hi as int);
            if s.len() == 1 {
                let e = s.drop_last();
                assert(e.len() == 0);
                assert(inversions(order, e) == 0);
                assert(sum_of(e, |y: T| if inverted(order, y, s.last()) { 1nat } else { 0nat }) == 0);
            }
        }
        return 0;
    }
    let mid = lo + (hi - lo) / 2;
    let ghost s0 = arr@;
    proof {
        assert(s0.subrange(lo as int, hi as int) =~= s0.subrange(lo as int, mid as int) + s0.subrange(mid as int, hi as int));
        lemma_inversions_concat(order, s0.subrange(lo as int, mid as int), s0.subrange(mid as int, hi as int));
    }
    let c1 = merge_sort_to_calculate_inversions(arr, aux, lo, mid, order);
    let ghost s1 = arr@;
    proof {
        assert(s1.subrange(mid as int, hi as int) =~= s0.subrange(mid as int, hi as int));
    }
    let c2 = merge_sort_to_calculate_inversions(arr, aux, mid, hi, order);
    let ghost s2 = arr@;
    let ghost sl = s2.subrange(lo as int, mid as int);
    let ghost sr = s2.subrange(mid as int, hi as int);
    proof {
        assert(s1.subrange(mid as int, hi as int) =~= s0.subrange(mid as int, hi as int));
        assert(sl =~= s1.subrange(lo as int, mid as int));
        lemma_range_multiset(s0, s1, lo as int, mid as int);
        lemma_range_multiset(s1, s2, mid as int, hi as int);
        let whole = s0.subrange(lo as int, hi as int);
        assert(whole =~= s0.subrange(lo as int, mid as int) + s0.subrange(mid as int, hi as int));
        lemma_inversions_concat(order, s0.subrange(lo as int, mid as int), s0.subrange(mid as int, hi as int));
        lemma_cross_permutation(order, s0.subrange(lo as int, mid as int), s0.subrange(mid as int, hi as int), sl, sr);
        assert(sr =~= sr.subrange(0, 0) + sr);
    }
    let merged_count = merge_counting(arr, aux, lo, mid, hi, order);
    let ghost merged = aux@;
    let mut k = lo;
    while k < hi
        invariant
            lo <= k <= hi <= arr@.len(),
            aux@ == merged,
            merged.len() == s2.len(),
            arr@.len() == s2.len(),
            forall|p: int| 0 <= p < lo || hi <= p < s2.len() ==> #[trigger] arr@[p] == s2[p],
            forall|p: int| lo <= p < k ==> #[trigger] arr@[p] == merged[p],
            forall|p: int| k <= p < hi ==> #[trigger] arr@[p] == s2[p],
        decreases hi - k,
    {
        arr[k] = aux[k];
        k += 1;
    }
    proof {
        assert(arr@.subrange(lo as int, hi as int) =~= merged.subrange(lo as int, hi as int));
        lemma_whole_multiset(s2, arr@, lo as int, hi as int);
    }
    c1 + c2 + merged_count
}
/// The number of pairs of items of `arr` that stand in the wrong order for
/// `order`.
pub fn calculate_inversions<T: Copy + PartialOrd>(arr: &[T], order: Order) -> (r: usize)
    requires
        total_order::<T>(),
        inversions(order, arr@) <= usize::MAX,
    ensures
        r == inversions(order, arr@),
{
    if arr.len() == 0 {
        return 0;
    }
    let mut arr_copy = vstd::slice::slice_to_vec(arr);
    let mut aux_arr = vec![arr[0]; arr.len()];
    let len = arr_copy.len();
    proof {
        assert(arr_copy@.subrange(0, len as int) =~= arr@);
    }
    merge_sort_to_calculate_inversions(&mut arr_copy, &mut aux_arr, 0, len, order)
}
} // verus!
