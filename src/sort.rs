//! In-place sorting of the range `start..end` of a slice, in increasing or
//! decreasing order.
use crate::heap::lemma_children;
use crate::multiset_facts::{lemma_all_by_multiset, lemma_range_multiset, lemma_swap_multiset, lemma_whole_multiset};
use crate::order::{greater, le, lemma_le_total, total_order};
use crate::random::random_in;
use vstd::prelude::*;

verus! {

broadcast use vstd::seq_lib::group_to_multiset_ensures;

/// The direction of a sort.
#[derive(Debug, PartialEq, Eq, Clone, Copy)]
pub enum Order {
    Increasing,
    Decreasing,
}

/// `a` may come before `b` in a sequence sorted by `order`.
pub open spec fn ord_le<T: PartialOrd>(order: Order, a: T, b: T) -> bool {
    match order {
        Order::Increasing => le(a, b),
        Order::Decreasing => le(b, a),
    }
}

/// The items of `s` at `lo..hi` are sorted by `order`.
pub open spec fn sorted_between<T: PartialOrd>(order: Order, s: Seq<T>, lo: int, hi: int) -> bool {
    forall|i: int, j: int| lo <= i < j < hi ==> ord_le(order, #[trigger] s[i], #[trigger] s[j])
}

/// `s1` holds the items of `s0`, and agrees with it outside `lo..hi`.
pub open spec fn rearranged_within<T>(s0: Seq<T>, s1: Seq<T>, lo: int, hi: int) -> bool {
    &&& s1.len() == s0.len()
    &&& s1.to_multiset() == s0.to_multiset()
    &&& forall|k: int| 0 <= k < lo || hi <= k < s0.len() ==> #[trigger] s1[k] == s0[k]
}

/// Sorting by either order is by a total preorder.
pub proof fn lemma_ord_laws<T: PartialOrd>(order: Order)
    requires
        total_order::<T>(),
    ensures
        forall|a: T, b: T| #[trigger] ord_le(order, a, b) || ord_le(order, b, a),
        forall|a: T, b: T, c: T|
            #[trigger] ord_le(order, a, b) && #[trigger] ord_le(order, b, c) ==> ord_le(order, a, c),
{
    assert forall|a: T, b: T| #[trigger] ord_le(order, a, b) || ord_le(order, b, a) by {
        lemma_le_total(a, b);
    }
    assert forall|a: T, b: T, c: T|
        #[trigger] ord_le(order, a, b) && #[trigger] ord_le(order, b, c) implies ord_le(order, a, c) by {
        match order {
            Order::Increasing => {},
            Order::Decreasing => {
                assert(le(c, b) && le(b, a));
            },
        }
    }
}

impl Order {
    /// `first` must not come before `second`: they are out of order.
    pub fn is_not_sorted<T: PartialOrd>(&self, first: &T, second: &T) -> (r: bool)
        requires
            total_order::<T>(),
        ensures
            r == !ord_le(*self, *first, *second),
    {
        match self {
            Order::Increasing => greater(first, second),
            Order::Decreasing => greater(second, first),
        }
    }

    /// `first` comes strictly before `second`.
    pub fn left_cmp<T: PartialOrd>(&self, first: &T, second: &T) -> (r: bool)
        requires
            total_order::<T>(),
        ensures
            r == !ord_le(*self, *second, *first),
    {
        match self {
            Order::Increasing => greater(second, first),
            Order::Decreasing => greater(first, second),
        }
    }

    /// `first` comes strictly after `second`.
    pub fn right_cmp<T: PartialOrd>(&self, first: &T, second: &T) -> (r: bool)
        requires
            total_order::<T>(),
        ensures
            r == !ord_le(*self, *first, *second),
    {
        self.is_not_sorted(first, second)
    }
}

/// Sorts `arr[start..end]` by inserting each item into the sorted part
/// before it.
pub fn insertion_sort<T: PartialOrd + Copy>(arr: &mut [T], start: usize, end: usize, order: Order)
    requires
        total_order::<T>(),
        end <= old(arr)@.len(),
    ensures
        rearranged_within(old(arr)@, final(arr)@, start as int, end as int),
        sorted_between(order, final(arr)@, start as int, end as int),
{
    proof {
        lemma_ord_laws::<T>(order);
    }
    if start >= end || end - start <= 1 {
        return;
    }
    let mut t: usize = start + 1;
    while t < end
        invariant
            total_order::<T>(),
            start < t <= end <= arr@.len(),
            rearranged_within(old(arr)@, arr@, start as int, end as int),
            sorted_between(order, arr@, start as int, t as int),
        decreases end - t,
    {
        let ghost s0 = arr@;
        let mut i = t;
        let last_element = arr[i];
        while i > start && order.is_not_sorted(&arr[i - 1], &last_element)
            invariant
                total_order::<T>(),
                start <= i <= t < end <= arr@.len(),
                arr@.len() == s0.len(),
                last_element == s0[t as int],
                arr@.update(i as int, last_element).to_multiset() == s0.to_multiset(),
                forall|k: int| 0 <= k < start || t < k < s0.len() ==> #[trigger] arr@[k] == s0[k],
                forall|p: int, q: int|
                    start <= p < q <= t && p != i && q != i ==> ord_le(
                        order,
                        #[trigger] arr@.update(i as int, last_element)[p],
                        #[trigger] arr@.update(i as int, last_element)[q],
                    ),
                forall|q: int|
                    i < q <= t ==> ord_le(order, last_element, #[trigger] arr@.update(i as int, last_element)[q]),
            decreases i,
        {
            let ghost b = arr@.update(i as int, last_element);
            let prev = arr[i - 1];
            arr[i] = prev;
            proof {
                let b2 = arr@.update(i - 1, last_element);
                assert(b2 =~= b.update(i - 1, b[i as int]).update(i as int, b[i - 1]));
                lemma_swap_multiset(b, i - 1, i as int);
                assert forall|p: int, q: int|
                    start <= p < q <= t && p != i - 1 && q != i - 1 implies ord_le(order, #[trigger] b2[p], #[trigger] b2[q]) by {
                    if p == i {
                        assert(b2[p] == b[i - 1]);
                    } else if q == i {
                        assert(b2[q] == b[i - 1]);
                    }
                }
            }
            i = i - 1;
        }
        arr[i] = last_element;
        proof {
            let b = arr@;
            assert forall|p: int, q: int| start <= p < q < t + 1 implies ord_le(order, #[trigger] b[p], #[trigger] b[q]) by {
                if q == i && i > start {
                    assert(ord_le(order, b[i - 1], last_element));
                    if p < i - 1 {
                        assert(ord_le(order, b[p], b[i - 1]));
                    }
                } else if p < i && i < q && i > start {
                    assert(ord_le(order, b[i - 1], last_element));
                    if p < i - 1 {
                        assert(ord_le(order, b[p], b[i - 1]));
                    }
                    assert(ord_le(order, last_element, b[q]));
                }
            }
        }
        t = t + 1;
    }
}

/// Partitions `arr[left..=right]` around its first item, the pivot: the
/// items before the returned index come no later than the pivot, and those
/// from it on no earlier. The returned index lies in `left + 1..=right`.
fn first_element_partition<T: PartialOrd + Copy>(arr: &mut [T], left: usize, right: usize, order: Order) -> (q: usize)
    requires
        total_order::<T>(),
        left < right < old(arr)@.len(),
    ensures
        rearranged_within(old(arr)@, final(arr)@, left as int, right + 1),
        left < q <= right,
        forall|k: int| left <= k < q ==> ord_le(order, #[trigger] final(arr)@[k], old(arr)@[left as int]),
        forall|k: int| q <= k <= right ==> ord_le(order, old(arr)@[left as int], #[trigger] final(arr)@[k]),
{
    proof {
        lemma_ord_laws::<T>(order);
    }
    let pivot = arr[left];
    let mut l = left;
    let mut r = right;
    while order.right_cmp(&arr[r], &pivot)
        invariant
            total_order::<T>(),
            left <= r <= right < arr@.len(),
            arr@ == old(arr)@,
            pivot == arr@[left as int],
            forall|k: int| r < k <= right ==> ord_le(order, pivot, #[trigger] arr@[k]),
        decreases r,
    {
        proof {
            assert(r != left);
            assert(ord_le(order, pivot, arr@[r as int]));
        }
        r = r - 1;
    }
    while l < r
        invariant
            total_order::<T>(),
            left <= l <= r + 1,
            left <= r <= right < arr@.len(),
            r < right || l == left,
            rearranged_within(old(arr)@, arr@, left as int, right + 1),
            pivot == old(arr)@[left as int],
            forall|k: int| left <= k < l ==> ord_le(order, #[trigger] arr@[k], pivot),
            forall|k: int| r < k <= right ==> ord_le(order, pivot, #[trigger] arr@[k]),
            l <= right ==> ord_le(order, pivot, arr@[l as int]),
            ord_le(order, arr@[r as int], pivot),
        decreases r + 1 - l,
    {
        let ghost before = arr@;
        let tmp = arr[l];
        arr[l] = arr[r];
        arr[r] = tmp;
        proof {
            lemma_swap_multiset(before, l as int, r as int);
            assert(arr@ == before.update(l as int, before[r as int]).update(r as int, before[l as int]));
        }
        l = l + 1;
        r = r - 1;
        let ghost l_start = l;
        let ghost r_start = r;
        while order.left_cmp(&arr[l], &pivot)
            invariant
                total_order::<T>(),
                l_start <= l,
                left < l <= r + 1,
                r + 1 <= right < arr@.len(),
                ord_le(order, pivot, arr@[r + 1]),
                forall|k: int| left <= k < l ==> ord_le(order, #[trigger] arr@[k], pivot),
            decreases r + 1 - l,
        {
            proof {
                assert(l != r + 1);
            }
            l = l + 1;
        }
        while order.right_cmp(&arr[r], &pivot)
            invariant
                total_order::<T>(),
                l_start <= l,
                r <= r_start,
                left < l,
                l - 1 <= r,
                l <= right + 1,
                r <= right < arr@.len(),
                ord_le(order, arr@[l - 1], pivot),
                forall|k: int| r < k <= right ==> ord_le(order, pivot, #[trigger] arr@[k]),
            decreases r,
        {
            proof {
                assert(r != l - 1);
            }
            r = r - 1;
        }
    }
    r + 1
}

/// Quicksort of `arr[start..end]` that always takes the first item as the
/// pivot.
pub fn quicksort_ineficient<T: PartialOrd + Copy>(arr: &mut [T], start: usize, end: usize, order: Order)
    requires
        total_order::<T>(),
        end <= old(arr)@.len(),
    ensures
        rearranged_within(old(arr)@, final(arr)@, start as int, end as int),
        sorted_between(order, final(arr)@, start as int, end as int),
    decreases end - start,
{
    if start >= end || end - start <= 1 {
        return;
    }
    let left = start;
    let right = end - 1;
    let q = first_element_partition(arr, left, right, order);
    proof {
        lemma_ord_laws::<T>(order);
    }
    let ghost pivot = old(arr)@[start as int];
    let ghost s1 = arr@;
    quicksort_ineficient(arr, start, q, order);
    let ghost s2 = arr@;
    quicksort_ineficient(arr, q, end, order);
    proof {
        lemma_sorted_halves(order, s1, s2, arr@, start as int, q as int, end as int, pivot);
    }
}

/// Below this many items, `quicksort` leaves a range to insertion sort.
pub const INSERTION_SORT_FACTOR: usize = 100;

/// Draws three random positions of `left..=right` and returns the one
/// holding the median of their three items.
fn median_of_3<T: PartialOrd + Copy>(arr: &[T], left: usize, right: usize) -> (r: usize)
    requires
        total_order::<T>(),
        left <= right < arr@.len(),
    ensures
        left <= r <= right,
{
    let len = arr.len();
    assert(right + 1 <= len);
    let i1 = random_in(left, right + 1);
    let i2 = random_in(left, right + 1);
    let i3 = random_in(left, right + 1);
    let el1 = arr[i1];
    let el2 = arr[i2];
    let el3 = arr[i3];
    if !greater(&el1, &el2) {
        // 1 2
        if !greater(&el2, &el3) {
            // 1 2 3
            return i2;
        }
        if !greater(&el1, &el3) {
            // 1  3  2
            return i3;
        }
        // 3  1  2
        return i1;
    }
    // 2 1
    if !greater(&el1, &el3) {
        // 2 1 3
        return i1;
    }
    if !greater(&el2, &el3) {
        // 2 3 1
        return i3;
    }
    // 3 2 1
    i2
}

/// Quicksort with a random median-of-three pivot that stops splitting a
/// range once it has at most `insertion_sort_factor` items, and recurses only
/// into the smaller side. The items stay within `start..end`.
fn quicksort_efficient<T: PartialOrd + Copy>(
    arr: &mut [T],
    start: usize,
    end: usize,
    insertion_sort_factor: usize,
    order: Order,
)
    requires
        total_order::<T>(),
        start <= end <= old(arr)@.len(),
        insertion_sort_factor >= 1,
    ensures
        rearranged_within(old(arr)@, final(arr)@, start as int, end as int),
    decreases end - start,
{
    if end - start <= 1 {
        return;
    }
    let mut left = start;
    let mut right = end - 1;
    loop
        invariant
            total_order::<T>(),
            insertion_sort_factor >= 1,
            start <= left <= right < end <= arr@.len(),
            rearranged_within(old(arr)@, arr@, start as int, end as int),
        decreases right - left,
    {
        if right - left + 1 <= insertion_sort_factor {
            return;
        }
        let random = median_of_3(arr, left, right);
        let ghost before = arr@;
        let tmp = arr[left];
        arr[left] = arr[random];
        arr[random] = tmp;
        proof {
            lemma_swap_multiset(before, left as int, random as int);
            assert(arr@ == before.update(left as int, before[random as int]).update(random as int, before[left as int]));
        }
        let q = first_element_partition(arr, left, right, order);
        let left_len = q - left;
        let right_len = right + 1 - q;
        if left_len <= right_len {
            quicksort_efficient(arr, left, q, insertion_sort_factor, order);
            left = q;
        } else {
            quicksort_efficient(arr, q, right + 1, insertion_sort_factor, order);
            right = q - 1;
        }
    }
}

/// Sorts `arr[start..end]`: quicksort down to short ranges, then one pass of
/// insertion sort over the whole range.
pub fn quicksort<T: PartialOrd + Copy>(arr: &mut [T], start: usize, end: usize, order: Order)
    requires
        total_order::<T>(),
        end <= old(arr)@.len(),
    ensures
        rearranged_within(old(arr)@, final(arr)@, start as int, end as int),
        sorted_between(order, final(arr)@, start as int, end as int),
{
    if start >= end {
        return;
    }
    quicksort_efficient(arr, start, end, INSERTION_SORT_FACTOR, order);
    insertion_sort(arr, start, end, order);
}

/// Quicksort of `arr[start..end]` whose pivot is the median of three random
/// items.
pub fn quicksort_ineficient_random_partition<T: PartialOrd + Copy>(
    arr: &mut [T],
    start: usize,
    end: usize,
    order: Order,
)
    requires
        total_order::<T>(),
        end <= old(arr)@.len(),
    ensures
        rearranged_within(old(arr)@, final(arr)@, start as int, end as int),
        sorted_between(order, final(arr)@, start as int, end as int),
    decreases end - start,
{
    if start >= end || end - start <= 1 {
        return;
    }
    let left = start;
    let right = end - 1;
    let random = median_of_3(arr, left, right);
    let ghost before = arr@;
    let tmp = arr[start];
    arr[start] = arr[random];
    arr[random] = tmp;
    proof {
        lemma_swap_multiset(before, start as int, random as int);
        assert(arr@ == before.update(start as int, before[random as int]).update(random as int, before[start as int]));
    }
    let ghost s0 = arr@;
    let q = first_element_partition(arr, left, right, order);
    proof {
        lemma_ord_laws::<T>(order);
    }
    let ghost pivot = s0[start as int];
    let ghost s1 = arr@;
    quicksort_ineficient_random_partition(arr, start, q, order);
    let ghost s2 = arr@;
    quicksort_ineficient_random_partition(arr, q, end, order);
    proof {
        lemma_sorted_halves(order, s1, s2, arr@, start as int, q as int, end as int, pivot);
    }
}

/// After a partition around `pivot` at `q`, sorting each side in turn sorts
/// the whole range.
proof fn lemma_sorted_halves<T: PartialOrd>(order: Order, s1: Seq<T>, s2: Seq<T>, s3: Seq<T>, start: int, q: int, end: int, pivot: T)
    requires
        total_order::<T>(),
        0 <= start < q < end <= s1.len(),
        forall|k: int| start <= k < q ==> ord_le(order, #[trigger] s1[k], pivot),
        forall|k: int| q <= k < end ==> ord_le(order, pivot, #[trigger] s1[k]),
        rearranged_within(s1, s2, start, q),
        sorted_between(order, s2, start, q),
        rearranged_within(s2, s3, q, end),
        sorted_between(order, s3, q, end),
    ensures
        rearranged_within(s1, s3, start, end),
        sorted_between(order, s3, start, end),
{
    lemma_ord_laws::<T>(order);
    lemma_range_multiset(s1, s2, start, q);
    assert forall|j: int| 0 <= j < q - start implies ord_le(order, #[trigger] s1.subrange(start, q)[j], pivot) by {
        assert(s1.subrange(start, q)[j] == s1[start + j]);
    }
    lemma_all_by_multiset(s1.subrange(start, q), s2.subrange(start, q), |x: T| ord_le(order, x, pivot));
    lemma_range_multiset(s2, s3, q, end);
    assert forall|j: int| 0 <= j < end - q implies ord_le(order, pivot, #[trigger] s2.subrange(q, end)[j]) by {
        assert(s2.subrange(q, end)[j] == s2[q + j]);
        assert(s2[q + j] == s1[q + j]);
    }
    lemma_all_by_multiset(s2.subrange(q, end), s3.subrange(q, end), |x: T| ord_le(order, pivot, x));
    assert forall|i: int, j: int| start <= i < j < end implies ord_le(order, #[trigger] s3[i], #[trigger] s3[j]) by {
        if j < q {
            assert(s3[i] == s2[i] && s3[j] == s2[j]);
        } else if i >= q {
        } else {
            assert(s3[i] == s2[i]);
            assert(ord_le(order, s2.subrange(start, q)[i - start], pivot));
            assert(ord_le(order, pivot, s3.subrange(q, end)[j - q]));
        }
    }
}

/// Every item of `s` at `a_lo..a_hi` may come before every item at `b_lo..b_hi`.
pub open spec fn all_before<T: PartialOrd>(order: Order, s: Seq<T>, a_lo: int, a_hi: int, b_lo: int, b_hi: int) -> bool {
    forall|i: int, j: int| a_lo <= i < a_hi && b_lo <= j < b_hi ==> ord_le(order, #[trigger] s[i], #[trigger] s[j])
}

/// What a rearrangement of `lo..hi` keeps: the parts outside it, and how the
/// items inside compare with a fixed item.
proof fn lemma_rearranged_bounds<T: PartialOrd>(order: Order, s0: Seq<T>, s1: Seq<T>, lo: int, hi: int, x: T)
    requires
        0 <= lo <= hi <= s0.len(),
        rearranged_within(s0, s1, lo, hi),
    ensures
        (forall|k: int| lo <= k < hi ==> ord_le(order, x, #[trigger] s0[k])) ==> (forall|k: int|
            lo <= k < hi ==> ord_le(order, x, #[trigger] s1[k])),
        (forall|k: int| lo <= k < hi ==> ord_le(order, #[trigger] s0[k], x)) ==> (forall|k: int|
            lo <= k < hi ==> ord_le(order, #[trigger] s1[k], x)),
{
    lemma_range_multiset(s0, s1, lo, hi);
    let r0 = s0.subrange(lo, hi);
    let r1 = s1.subrange(lo, hi);
    if forall|k: int| lo <= k < hi ==> ord_le(order, x, #[trigger] s0[k]) {
        assert forall|k: int| 0 <= k < r0.len() implies ord_le(order, x, #[trigger] r0[k]) by {
            assert(r0[k] == s0[lo + k]);
        }
        lemma_all_by_multiset(r0, r1, |y: T| ord_le(order, x, y));
        assert forall|k: int| lo <= k < hi implies ord_le(order, x, #[trigger] s1[k]) by {
            assert(r1[k - lo] == s1[k]);
        }
    }
    if forall|k: int| lo <= k < hi ==> ord_le(order, #[trigger] s0[k], x) {
        assert forall|k: int| 0 <= k < r0.len() implies ord_le(order, #[trigger] r0[k], x) by {
            assert(r0[k] == s0[lo + k]);
        }
        lemma_all_by_multiset(r0, r1, |y: T| ord_le(order, y, x));
        assert forall|k: int| lo <= k < hi implies ord_le(order, #[trigger] s1[k], x) by {
            assert(r1[k - lo] == s1[k]);
        }
    }
}

/// Rearranging `lo..hi`, which lies between two parts, keeps every item of the
/// first part before every item of `lo..end`, and every item of `lo..hi`
/// before every item of the second part.
proof fn lemma_rearranged_between<T: PartialOrd>(order: Order, s0: Seq<T>, s1: Seq<T>, start: int, lo: int, hi: int, end: int)
    requires
        total_order::<T>(),
        0 <= start <= lo <= hi <= end <= s0.len(),
        rearranged_within(s0, s1, lo, hi),
        all_before(order, s0, start, lo, lo, end),
        all_before(order, s0, lo, hi, hi, end),
    ensures
        all_before(order, s1, start, lo, lo, end),
        all_before(order, s1, lo, hi, hi, end),
{
    assert forall|i: int, j: int| start <= i < lo && lo <= j < end implies ord_le(order, #[trigger] s1[i], #[trigger] s1[j]) by {
        let x = s0[i];
        assert forall|k: int| lo <= k < hi implies ord_le(order, x, #[trigger] s0[k]) by {}
        lemma_rearranged_bounds(order, s0, s1, lo, hi, x);
        assert(s1[i] == x);
        if j >= hi {
            assert(s1[j] == s0[j]);
        }
    }
    assert forall|i: int, j: int| lo <= i < hi && hi <= j < end implies ord_le(order, #[trigger] s1[i], #[trigger] s1[j]) by {
        let x = s0[j];
        assert forall|k: int| lo <= k < hi implies ord_le(order, #[trigger] s0[k], x) by {}
        lemma_rearranged_bounds(order, s0, s1, lo, hi, x);
        assert(s1[j] == x);
    }
}

/// Quicksort of `arr[start..end]` with a random median-of-three pivot that
/// recurses into the smaller side and loops on the larger one.
pub fn quicksort_efficient_random_partition<T: PartialOrd + Copy>(
    arr: &mut [T],
    start: usize,
    end: usize,
    order: Order,
)
    requires
        total_order::<T>(),
        end <= old(arr)@.len(),
    ensures
        rearranged_within(old(arr)@, final(arr)@, start as int, end as int),
        sorted_between(order, final(arr)@, start as int, end as int),
    decreases end - start,
{
    proof {
        lemma_ord_laws::<T>(order);
    }
    if start >= end || end - start <= 1 {
        return;
    }
    let mut left = start;
    let mut right = end - 1;
    while left < right
        invariant
            total_order::<T>(),
            start <= left <= right + 1,
            right < end <= arr@.len(),
            rearranged_within(old(arr)@, arr@, start as int, end as int),
            sorted_between(order, arr@, start as int, left as int),
            sorted_between(order, arr@, right + 1, end as int),
            all_before(order, arr@, start as int, left as int, left as int, end as int),
            all_before(order, arr@, left as int, right + 1, right + 1, end as int),
        decreases right - left,
    {
        let ghost s0 = arr@;
        let random = median_of_3(arr, left, right);
        let tmp = arr[left];
        arr[left] = arr[random];
        arr[random] = tmp;
        proof {
            lemma_swap_multiset(s0, left as int, random as int);
            assert(arr@ == s0.update(left as int, s0[random as int]).update(random as int, s0[left as int]));
        }
        let ghost s_a = arr@;
        let q = first_element_partition(arr, left, right, order);
        let ghost s_b = arr@;
        let ghost pivot = s_a[left as int];
        proof {
            lemma_rearranged_between(order, s0, s_b, start as int, left as int, right + 1, end as int);
        }
        let left_len = q - left;
        let right_len = right + 1 - q;
        if left_len <= right_len {
            quicksort_efficient_random_partition(arr, left, q, order);
            proof {
                let s_c = arr@;
                lemma_rearranged_between(order, s_b, s_c, start as int, left as int, q as int, end as int);
                lemma_rearranged_bounds(order, s_b, s_c, left as int, q as int, pivot);
                assert forall|i: int, j: int| start <= i < q && q <= j < end implies ord_le(order, #[trigger] s_c[i], #[trigger] s_c[j]) by {
                    if i >= left && j <= right {
                        assert(s_c[j] == s_b[j]);
                    }
                }
                assert forall|i: int, j: int| start <= i < j < q implies ord_le(order, #[trigger] s_c[i], #[trigger] s_c[j]) by {
                    if i < left && j < left {
                        assert(s_c[i] == s_b[i] && s_c[j] == s_b[j]);
                    }
                }
                assert forall|i: int, j: int| right + 1 <= i < j < end implies ord_le(order, #[trigger] s_c[i], #[trigger] s_c[j]) by {
                    assert(s_c[i] == s_b[i] && s_c[j] == s_b[j]);
                }
                assert forall|i: int, j: int| q <= i < right + 1 && right + 1 <= j < end implies ord_le(order, #[trigger] s_c[i], #[trigger] s_c[j]) by {
                    assert(s_c[i] == s_b[i] && s_c[j] == s_b[j]);
                }
                assert(rearranged_within(old(arr)@, s_c, start as int, end as int));
            }
            left = q;
        } else {
            quicksort_efficient_random_partition(arr, q, right + 1, order);
            proof {
                let s_c = arr@;
                lemma_rearranged_bounds(order, s_b, s_c, q as int, right + 1, pivot);
                assert forall|i: int, j: int| start <= i < left && left <= j < end implies ord_le(order, #[trigger] s_c[i], #[trigger] s_c[j]) by {
                    assert(s_c[i] == s_b[i]);
                    let x = s_b[i];
                    assert forall|k: int| q <= k < right + 1 implies ord_le(order, x, #[trigger] s_b[k]) by {}
                    lemma_rearranged_bounds(order, s_b, s_c, q as int, right + 1, x);
                    if j < q || j > right {
                        assert(s_c[j] == s_b[j]);
                    }
                }
                assert forall|i: int, j: int| left <= i < q && q <= j < end implies ord_le(order, #[trigger] s_c[i], #[trigger] s_c[j]) by {
                    assert(s_c[i] == s_b[i]);
                    if j > right {
                        assert(s_c[j] == s_b[j]);
                    }
                }
                assert forall|i: int, j: int| start <= i < j < left implies ord_le(order, #[trigger] s_c[i], #[trigger] s_c[j]) by {
                    assert(s_c[i] == s_b[i] && s_c[j] == s_b[j]);
                }
                assert forall|i: int, j: int| q <= i < j < end implies ord_le(order, #[trigger] s_c[i], #[trigger] s_c[j]) by {
                    if i > right {
                        assert(s_c[i] == s_b[i] && s_c[j] == s_b[j]);
                    } else if j > right {
                        assert(s_c[j] == s_b[j]);
                        let x = s_b[j];
                        assert forall|k: int| q <= k < right + 1 implies ord_le(order, #[trigger] s_b[k], x) by {}
                        lemma_rearranged_bounds(order, s_b, s_c, q as int, right + 1, x);
                    }
                }
                assert(rearranged_within(old(arr)@, s_c, start as int, end as int));
            }
            right = q - 1;
        }
    }
    proof {
        assert forall|i: int, j: int| start <= i < j < end implies ord_le(order, #[trigger] arr@[i], #[trigger] arr@[j]) by {
            if i < left && j >= left {
            } else if i <= right && j > right {
            }
        }
    }
}

/// Merges the sorted `from[src_lo..src_mid]` and `from[src_mid..src_hi]`
/// into `to` from `dst_lo` on, taking the left item unless the right one
/// must come first.
fn merge_into<T: PartialOrd + Copy>(
    from: &[T],
    to: &mut [T],
    src_lo: usize,
    src_mid: usize,
    src_hi: usize,
    dst_lo: usize,
    order: Order,
)
    requires
        total_order::<T>(),
        src_lo <= src_mid <= src_hi <= from@.len(),
        dst_lo + (src_hi - src_lo) <= old(to)@.len(),
        sorted_between(order, from@, src_lo as int, src_mid as int),
        sorted_between(order, from@, src_mid as int, src_hi as int),
    ensures
        final(to)@.len() == old(to)@.len(),
        final(to)@.subrange(dst_lo as int, dst_lo + (src_hi - src_lo)).to_multiset() == from@.subrange(
            src_lo as int,
            src_hi as int,
        ).to_multiset(),
        sorted_between(order, final(to)@, dst_lo as int, dst_lo + (src_hi - src_lo)),
        forall|k: int|
            0 <= k < dst_lo || dst_lo + (src_hi - src_lo) <= k < old(to)@.len() ==> #[trigger] final(to)@[k]
                == old(to)@[k],
{
    proof {
        lemma_ord_laws::<T>(order);
    }
    let ghost f = from@;
    let mut left = src_lo;
    let mut right = src_mid;
    let mut i = dst_lo;
    proof {
        assert(to@.subrange(dst_lo as int, dst_lo as int) =~= Seq::<T>::empty());
        assert(f.subrange(src_lo as int, src_lo as int) =~= Seq::<T>::empty());
        assert(f.subrange(src_mid as int, src_mid as int) =~= Seq::<T>::empty());
    }
    while left < src_mid || right < src_hi
        invariant
            total_order::<T>(),
            src_lo <= left <= src_mid <= right <= src_hi <= f.len(),
            f == from@,
            i == dst_lo + (left - src_lo) + (right - src_mid),
            dst_lo + (src_hi - src_lo) <= to@.len(),
            to@.len() == old(to)@.len(),
            sorted_between(order, f, src_lo as int, src_mid as int),
            sorted_between(order, f, src_mid as int, src_hi as int),
            to@.subrange(dst_lo as int, i as int).to_multiset() == f.subrange(src_lo as int, left as int).to_multiset().add(
                f.subrange(src_mid as int, right as int).to_multiset(),
            ),
            sorted_between(order, to@, dst_lo as int, i as int),
            forall|p: int|
                dst_lo <= p < i ==> (left < src_mid ==> ord_le(order, #[trigger] to@[p], f[left as int])) && (right
                    < src_hi ==> ord_le(order, to@[p], f[right as int])),
            forall|k: int|
                0 <= k < dst_lo || dst_lo + (src_hi - src_lo) <= k < old(to)@.len() ==> #[trigger] to@[k] == old(to)@[k],
        decreases src_hi - i + dst_lo - src_lo,
    {
        let ghost t0 = to@;
        let take_right = if left >= src_mid {
            true
        } else if right >= src_hi {
            false
        } else {
            order.is_not_sorted(&from[left], &from[right])
        };
        if take_right {
            to[i] = from[right];
            right += 1;
            proof {
                assert(f.subrange(src_mid as int, right as int) =~= f.subrange(src_mid as int, right - 1).push(f[right - 1]));
                assert(to@.subrange(dst_lo as int, i + 1) =~= t0.subrange(dst_lo as int, i as int).push(f[right - 1]));
                if left < src_mid {
                    assert(ord_le(order, f[right - 1], f[left as int]));
                }
            }
        } else {
            to[i] = from[left];
            left += 1;
            proof {
                assert(f.subrange(src_lo as int, left as int) =~= f.subrange(src_lo as int, left - 1).push(f[left - 1]));
                assert(to@.subrange(dst_lo as int, i + 1) =~= t0.subrange(dst_lo as int, i as int).push(f[left - 1]));
            }
        }
        i += 1;
    }
    proof {
        assert(f.subrange(src_lo as int, src_hi as int) =~= f.subrange(src_lo as int, src_mid as int) + f.subrange(src_mid as int, src_hi as int));
        vstd::seq_lib::lemma_multiset_commutative(f.subrange(src_lo as int, src_mid as int), f.subrange(src_mid as int, src_hi as int));
    }
}

/// Positions `i` and `j` fall in the same run of `w` items.
pub open spec fn same_run(i: int, j: int, w: int) -> bool {
    i / w == j / w
}

/// Each run of `w` items of `s`, counted from its start, is sorted.
pub open spec fn runs_sorted<T: PartialOrd>(order: Order, s: Seq<T>, w: int) -> bool {
    forall|i: int, j: int| 0 <= i < j < s.len() && same_run(i, j, w) ==> ord_le(order, #[trigger] s[i], #[trigger] s[j])
}

/// Positions on either side of a run boundary lie in different runs.
proof fn lemma_run_boundary(i: int, j: int, k: int, w: int)
    requires
        w >= 1,
        k >= 0,
        0 <= i < k * w <= j,
    ensures
        !same_run(i, j, w),
{
    vstd::arithmetic::div_mod::lemma_fundamental_div_mod(i, w);
    vstd::arithmetic::div_mod::lemma_fundamental_div_mod(j, w);
    let qi = i / w;
    let qj = j / w;
    assert(i == w * qi + i % w);
    assert(j == w * qj + j % w);
    assert(0 <= i % w < w);
    assert(0 <= j % w < w);
    assert(qi < k) by (nonlinear_arith)
        requires
            i == w * qi + i % w,
            0 <= i % w,
            i < k * w,
            w >= 1,
    ;
    assert(qj >= k) by (nonlinear_arith)
        requires
            j == w * qj + j % w,
            j % w < w,
            j >= k * w,
            w >= 1,
    ;
}

/// The positions `k * w .. k * w + w` form run `k`.
proof fn lemma_in_run(i: int, k: int, w: int)
    requires
        w >= 1,
        k >= 0,
        k * w <= i < k * w + w,
    ensures
        i / w == k,
{
    lemma_children(k, i + 1, w);
}

/// Merges each pair of neighbouring runs of `w` items of
/// `from[from_off..from_off + len]` into one run of `2 * w` items of
/// `to[to_off..to_off + len]`.
fn merge_pass<T: PartialOrd + Copy>(
    from: &[T],
    to: &mut [T],
    from_off: usize,
    to_off: usize,
    len: usize,
    w: usize,
    order: Order,
)
    requires
        total_order::<T>(),
        from_off + len <= from@.len(),
        to_off + len <= old(to)@.len(),
        w >= 1,
        len + 2 * w <= usize::MAX,
        runs_sorted(order, from@.subrange(from_off as int, from_off + len), w as int),
    ensures
        final(to)@.len() == old(to)@.len(),
        final(to)@.subrange(to_off as int, to_off + len).to_multiset() == from@.subrange(
            from_off as int,
            from_off + len,
        ).to_multiset(),
        runs_sorted(order, final(to)@.subrange(to_off as int, to_off + len), 2 * w),
        forall|k: int| 0 <= k < to_off || to_off + len <= k < old(to)@.len() ==> #[trigger] final(to)@[k] == old(to)@[k],
{
    proof {
        lemma_ord_laws::<T>(order);
    }
    let ghost f = from@;
    let ghost r = f.subrange(from_off as int, from_off + len);
    let from_len = from.len();
    let to_len = to.len();
    let w2 = 2 * w;
    let mut b: usize = 0;
    let ghost mut kb: int = 0;
    let ghost mut done: int = 0;
    proof {
        assert(to@.subrange(to_off as int, to_off as int) =~= Seq::<T>::empty());
        assert(f.subrange(from_off as int, from_off as int) =~= Seq::<T>::empty());
    }
    while b < len
        invariant
            total_order::<T>(),
            f == from@,
            r == f.subrange(from_off as int, from_off + len),
            from_off + len <= f.len(),
            to_off + len <= to@.len(),
            to@.len() == old(to)@.len(),
            w >= 1,
            w2 == 2 * w,
            len + w2 <= usize::MAX,
            kb >= 0,
            b == kb * w2,
            b <= len + w2,
            from_len == f.len(),
            to_len == to@.len(),
            done == (if b <= len { b as int } else { len as int }),
            runs_sorted(order, r, w as int),
            to@.subrange(to_off as int, to_off + done).to_multiset() == f.subrange(from_off as int, from_off + done).to_multiset(),
            runs_sorted(order, to@.subrange(to_off as int, to_off + done), w2 as int),
            forall|k: int| 0 <= k < to_off || to_off + done <= k < old(to)@.len() ==> #[trigger] to@[k] == old(to)@[k],
        decreases len + w2 - b,
    {
        let mid = if b + w < len {
            b + w
        } else {
            len
        };
        let hi = if b + w2 < len {
            b + w2
        } else {
            len
        };
        proof {
            assert(b == (2 * kb) * w) by (nonlinear_arith)
                requires
                    b == kb * w2,
                    w2 == 2 * w,
            ;
            assert forall|i: int, j: int| from_off + b <= i < j < from_off + mid implies ord_le(order, #[trigger] f[i], #[trigger] f[j]) by {
                lemma_in_run(i - from_off, 2 * kb, w as int);
                lemma_in_run(j - from_off, 2 * kb, w as int);
                assert(r[i - from_off] == f[i] && r[j - from_off] == f[j]);
            }
            assert forall|i: int, j: int| from_off + mid <= i < j < from_off + hi implies ord_le(order, #[trigger] f[i], #[trigger] f[j]) by {
                assert(b + w == (2 * kb + 1) * w) by (nonlinear_arith)
                    requires
                        b == (2 * kb) * w,
                ;
                lemma_in_run(i - from_off, 2 * kb + 1, w as int);
                lemma_in_run(j - from_off, 2 * kb + 1, w as int);
                assert(r[i - from_off] == f[i] && r[j - from_off] == f[j]);
            }
        }
        let ghost t0 = to@;
        merge_into(from, to, from_off + b, from_off + mid, from_off + hi, to_off + b, order);
        proof {
            let t1 = to@;
            let done0 = t0.subrange(to_off as int, to_off + b);
            let blk = t1.subrange(to_off + b, to_off + hi);
            assert(t1.subrange(to_off as int, to_off + b) =~= done0);
            assert(t1.subrange(to_off as int, to_off + hi) =~= done0 + blk);
            assert(f.subrange(from_off as int, from_off + hi) =~= f.subrange(from_off as int, from_off + b) + f.subrange(from_off + b, from_off + hi));
            vstd::seq_lib::lemma_multiset_commutative(done0, blk);
            vstd::seq_lib::lemma_multiset_commutative(f.subrange(from_off as int, from_off + b), f.subrange(from_off + b, from_off + hi));
            let nt = t1.subrange(to_off as int, to_off + hi);
            assert forall|i: int, j: int| 0 <= i < j < nt.len() && same_run(i, j, w2 as int) implies ord_le(order, #[trigger] nt[i], #[trigger] nt[j]) by {
                if j < b {
                    assert(nt[i] == done0[i] && nt[j] == done0[j]);
                } else if i >= b {
                    assert(nt[i] == t1[to_off + i] && nt[j] == t1[to_off + j]);
                } else {
                    lemma_run_boundary(i, j, kb, w2 as int);
                }
            }
        }
        b = b + w2;
        proof {
            done = hi as int;
            kb = kb + 1;
            assert(b == kb * w2) by (nonlinear_arith)
                requires
                    b == (kb - 1) * w2 + w2,
            ;
            if b > len {
                assert(hi == len);
            }
        }
    }
}

/// Bottom-up merge sort of `arr[start..end]`: runs of 1, 2, 4, ... items are
/// merged pairwise, back and forth between the slice and a mirror buffer.
pub fn merge_sort<T: PartialOrd + Copy>(arr: &mut [T], start: usize, end: usize, order: Order)
    requires
        total_order::<T>(),
        end <= old(arr)@.len(),
        3 * (end - start) <= usize::MAX,
    ensures
        rearranged_within(old(arr)@, final(arr)@, start as int, end as int),
        sorted_between(order, final(arr)@, start as int, end as int),
{
    proof {
        lemma_ord_laws::<T>(order);
    }
    if start >= end || end - start <= 1 {
        return;
    }
    let len = end - start;
    let ghost orig = old(arr)@.subrange(start as int, end as int);
    let mut mirror_arr = vec![arr[start]; len];
    let mut currently_sorted_size: usize = 1;
    let mut mirror_is_target = true;
    proof {
        assert forall|i: int, j: int| 0 <= i < j < len && same_run(i, j, 1) implies ord_le(order, #[trigger] orig[i], #[trigger] orig[j]) by {}
    }
    while currently_sorted_size < len
        invariant
            total_order::<T>(),
            start <= end <= arr@.len(),
            len == end - start,
            3 * len <= usize::MAX,
            currently_sorted_size >= 1,
            currently_sorted_size <= 2 * len,
            mirror_arr@.len() == len,
            arr@.len() == old(arr)@.len(),
            orig == old(arr)@.subrange(start as int, end as int),
            forall|k: int| 0 <= k < start || end <= k < old(arr)@.len() ==> #[trigger] arr@[k] == old(arr)@[k],
            mirror_is_target ==> arr@.subrange(start as int, end as int).to_multiset() == orig.to_multiset(),
            mirror_is_target ==> runs_sorted(order, arr@.subrange(start as int, end as int), currently_sorted_size as int),
            !mirror_is_target ==> mirror_arr@.to_multiset() == orig.to_multiset(),
            !mirror_is_target ==> runs_sorted(order, mirror_arr@, currently_sorted_size as int),
        decreases 2 * len - currently_sorted_size,
    {
        if mirror_is_target {
            let ghost before = arr@;
            merge_pass(arr, mirror_arr.as_mut_slice(), start, 0, len, currently_sorted_size, order);
            proof {
                assert(mirror_arr@.subrange(0, len as int) =~= mirror_arr@);
                assert(arr@ == before);
            }
            mirror_is_target = false;
        } else {
            let ghost m = mirror_arr@;
            proof {
                assert(m.subrange(0, len as int) =~= m);
            }
            merge_pass(mirror_arr.as_slice(), arr, 0, start, len, currently_sorted_size, order);
            mirror_is_target = true;
        }
        currently_sorted_size = currently_sorted_size * 2;
    }
    if !mirror_is_target {
        let ghost before = arr@;
        let mut i: usize = 0;
        while i < len
            invariant
                start <= end <= arr@.len(),
                len == end - start,
                mirror_arr@.len() == len,
                arr@.len() == before.len(),
                forall|k: int| 0 <= k < start || end <= k < before.len() ==> #[trigger] arr@[k] == before[k],
                forall|k: int| 0 <= k < i ==> #[trigger] arr@[start + k] == mirror_arr@[k],
                i <= len,
            decreases len - i,
        {
            arr[start + i] = mirror_arr[i];
            i += 1;
        }
        proof {
            assert forall|k: int| 0 <= k < len implies #[trigger] arr@.subrange(start as int, end as int)[k] == mirror_arr@[k] by {
                assert(arr@[start + k] == mirror_arr@[k]);
            }
            assert(arr@.subrange(start as int, end as int) =~= mirror_arr@);
        }
    }
    proof {
        let fin = arr@.subrange(start as int, end as int);
        assert(runs_sorted(order, fin, currently_sorted_size as int));
        lemma_whole_multiset(old(arr)@, arr@, start as int, end as int);
        assert forall|i: int, j: int| start <= i < j < end implies ord_le(order, #[trigger] arr@[i], #[trigger] arr@[j]) by {
            vstd::arithmetic::div_mod::lemma_basic_div(i - start, currently_sorted_size as int);
            vstd::arithmetic::div_mod::lemma_basic_div(j - start, currently_sorted_size as int);
            assert(fin[i - start] == arr@[i] && fin[j - start] == arr@[j]);
        }
    }
}

} // verus!
