//! An array-backed d-ary max-heap, and the ascending sequence that heapsort
//! turns it into.
use crate::multiset_facts::{lemma_all_by_multiset, lemma_swap_multiset};
use crate::order::{greater, le, lemma_le_total, sorted, total_order};
use vstd::prelude::*;

verus! {

broadcast use vstd::seq_lib::group_to_multiset_ensures;

/// Index of the parent of node `k` in a heap of degree `d`.
pub open spec fn parent_of(k: int, d: int) -> int {
    (k - 1) / d
}

/// Index of the parent of node `i` in a heap of degree `degree`.
pub fn parent(i: usize, degree: usize) -> (r: usize)
    requires
        i > 0,
        degree > 0,
    ensures
        r == parent_of(i as int, degree as int),
{
    (i - 1) / degree
}

/// The indices of the children of node `i` in a heap of degree `degree`:
/// `i * degree + 1` up to, but not including, `i * degree + degree + 1`.
pub fn children_range(i: usize, degree: usize) -> (r: core::ops::Range<usize>)
    requires
        i * degree + degree + 1 <= usize::MAX,
    ensures
        r.start == i * degree + 1,
        r.end == i * degree + degree + 1,
        forall|c: int| c > 0 && degree > 0 ==> (parent_of(c, degree as int) == i <==> r.start <= c < r.end),
{
    proof {
        assert forall|c: int| c > 0 && degree > 0 implies (parent_of(c, degree as int) == i <==> i * degree + 1 <= c < i * degree + degree + 1) by {
            lemma_children(i as int, c, degree as int);
        }
    }
    let min = i * degree + 1;
    min..min + degree
}

/// Every node `k` of the first `n` items of `s` whose parent is at index `lo`
/// or above is at most its parent.
pub open spec fn heap_from<T: PartialOrd>(s: Seq<T>, d: int, n: int, lo: int) -> bool {
    forall|k: int|
        #![trigger s[k]]
        0 < k < n && parent_of(k, d) >= lo ==> le(s[k], s[parent_of(k, d)])
}

/// The max-heap property over all of `s`: no item exceeds its parent.
pub open spec fn is_heap<T: PartialOrd>(s: Seq<T>, d: int) -> bool {
    heap_from(s, d, s.len() as int, 0)
}

/// A parent comes before its children.
pub proof fn lemma_parent_before(k: int, d: int)
    requires
        k > 0,
        d >= 1,
    ensures
        0 <= parent_of(k, d) < k,
{
    assert(0 <= (k - 1) / d <= k - 1) by {
        vstd::arithmetic::div_mod::lemma_div_is_ordered_by_denominator(k - 1, 1, d);
        vstd::arithmetic::div_mod::lemma_div_pos_is_pos(k - 1, d);
    }
}

/// The children of node `p` are the indices `p * d + 1` to `p * d + d`.
pub proof fn lemma_children(p: int, c: int, d: int)
    requires
        p >= 0,
        c > 0,
        d >= 1,
    ensures
        parent_of(c, d) == p <==> p * d + 1 <= c <= p * d + d,
{
    vstd::arithmetic::div_mod::lemma_fundamental_div_mod(c - 1, d);
    let q = (c - 1) / d;
    let r = (c - 1) % d;
    assert(0 <= r < d);
    if q == p {
        assert(c - 1 == p * d + r) by {
            vstd::arithmetic::mul::lemma_mul_is_commutative(d, q);
        }
    } else if q < p {
        assert(q * d + d <= p * d) by (nonlinear_arith)
            requires
                q < p,
                d >= 1,
        ;
        assert(c - 1 == q * d + r) by {
            vstd::arithmetic::mul::lemma_mul_is_commutative(d, q);
        }
    } else {
        assert(q * d >= p * d + d) by (nonlinear_arith)
            requires
                q > p,
                d >= 1,
        ;
        assert(c - 1 == q * d + r) by {
            vstd::arithmetic::mul::lemma_mul_is_commutative(d, q);
        }
    }
}

/// A node at or past `(n - 2) / d` has no child below `n`; one before it has
/// its first child below `n`.
proof fn lemma_first_child(p: int, n: int, d: int)
    requires
        p >= 0,
        n >= 2,
        d >= 1,
    ensures
        p <= (n - 2) / d ==> p * d + 1 <= n - 1,
        p > (n - 2) / d ==> p * d + 1 > n - 1,
{
    vstd::arithmetic::div_mod::lemma_fundamental_div_mod(n - 2, d);
    let q = (n - 2) / d;
    assert(n - 2 == d * q + (n - 2) % d);
    if p <= q {
        assert(p * d <= q * d) by (nonlinear_arith)
            requires
                p <= q,
                d >= 1,
        ;
        vstd::arithmetic::mul::lemma_mul_is_commutative(d, q);
    } else {
        assert(p * d >= q * d + d) by (nonlinear_arith)
            requires
                p > q,
                d >= 1,
        ;
        vstd::arithmetic::mul::lemma_mul_is_commutative(d, q);
    }
}

/// The root of a heap is at least every item of it.
pub proof fn lemma_root_is_max<T: PartialOrd>(s: Seq<T>, d: int, n: int, k: int)
    requires
        total_order::<T>(),
        d >= 1,
        n <= s.len(),
        heap_from(s, d, n, 0),
        0 <= k < n,
    ensures
        le(s[k], s[0]),
    decreases k,
{
    if k == 0 {
        lemma_le_total(s[0], s[0]);
    } else {
        lemma_parent_before(k, d);
        lemma_root_is_max(s, d, n, parent_of(k, d));
    }
}

/// `k` lies in the subtree rooted at `i`: it is `i` or a descendant of `i`.
pub open spec fn in_subtree(k: int, i: int, d: int) -> bool
    decreases k,
{
    if k == i {
        true
    } else if k > i && k > 0 && d >= 1 && 0 <= parent_of(k, d) < k {
        in_subtree(parent_of(k, d), i, d)
    } else {
        false
    }
}

/// A node of a subtree comes no earlier than its root, and a child of a
/// node of the subtree is in the subtree.
pub proof fn lemma_subtree(k: int, i: int, d: int)
    requires
        d >= 1,
        i >= 0,
    ensures
        in_subtree(k, i, d) ==> k >= i,
        k > 0 && in_subtree(parent_of(k, d), i, d) ==> in_subtree(k, i, d),
        k > i && in_subtree(k, i, d) ==> in_subtree(parent_of(k, d), i, d),
{
    if k > 0 {
        lemma_parent_before(k, d);
    }
}

/// The first largest of `s[j..end]` and `s[m]`, scanning from `j`: a later
/// item replaces the one found so far only when it is greater.
pub open spec fn larger_child<T: PartialOrd>(s: Seq<T>, j: int, end: int, m: int) -> int
    decreases end - j,
{
    if j >= end {
        m
    } else {
        larger_child(s, j + 1, end, if !le(s[j], s[m]) { j } else { m })
    }
}

/// Where sift-down leaves the first `n` items of `s` when it starts at `p`:
/// while some child of the current node exceeds it, the node swaps with its
/// first largest child and the walk goes on from there.
pub open spec fn sift_down_spec<T: PartialOrd>(s: Seq<T>, d: int, n: int, p: int) -> Seq<T>
    decreases n - p,
{
    if p < 0 || p >= n || d < 1 || p * d + 1 >= n {
        s
    } else {
        let first = p * d + 1;
        let end = if p * d + d + 1 < n { p * d + d + 1 } else { n };
        let m = larger_child(s, first, end, p);
        if m <= p || m >= n {
            s
        } else {
            sift_down_spec(s.update(p, s[m]).update(m, s[p]), d, n, m)
        }
    }
}

/// Where sift-up leaves `s` when `v` is placed at `h`: each smaller
/// ancestor moves down one level into the hole, and `v` lands in the last hole.
pub open spec fn sift_up_spec<T: PartialOrd>(s: Seq<T>, d: int, h: int, v: T) -> Seq<T>
    decreases h,
{
    if h <= 0 || d < 1 || h >= s.len() {
        s.update(h, v)
    } else {
        let p = parent_of(h, d);
        if p < 0 || p >= h || le(v, s[p]) {
            s.update(h, v)
        } else {
            sift_up_spec(s.update(h, s[p]), d, p, v)
        }
    }
}

/// Where building a heap leaves `s` once sift-down has run on nodes `i`,
/// `i - 1`, ..., `0` in turn.
pub open spec fn build_from<T: PartialOrd>(s: Seq<T>, d: int, i: int) -> Seq<T>
    decreases i,
{
    let t = sift_down_spec(s, d, s.len() as int, i);
    if i <= 0 {
        t
    } else {
        build_from(t, d, i - 1)
    }
}

/// The heap that `build_heap` makes of `s`: sift-down on every node that
/// has a child, from the last such node back to the root.
pub open spec fn built<T: PartialOrd>(s: Seq<T>, d: int) -> Seq<T> {
    if s.len() == 0 {
        s
    } else {
        build_from(s, d, (s.len() - 1) / d)
    }
}

/// Where replacing the item at `i` by `v` leaves `s`: a smaller value sifts
/// down, a greater one sifts up, an equal one is written in place.
pub open spec fn replace_spec<T: PartialOrd>(s: Seq<T>, d: int, i: int, v: T) -> Seq<T> {
    if !le(s[i], v) {
        sift_down_spec(s.update(i, v), d, s.len() as int, i)
    } else if !le(v, s[i]) {
        sift_up_spec(s, d, i, v)
    } else {
        s.update(i, v)
    }
}

/// When no item of `s[j..end]` exceeds `s[m]`, the scan keeps `m`.
proof fn lemma_larger_child_keeps<T: PartialOrd>(s: Seq<T>, j: int, end: int, m: int)
    requires
        forall|c: int| j <= c < end ==> le(#[trigger] s[c], s[m]),
    ensures
        larger_child(s, j, end, m) == m,
    decreases end - j,
{
    if j < end {
        lemma_larger_child_keeps(s, j + 1, end, m);
    }
}

/// Sift-down moves nothing in a heap.
pub proof fn lemma_sift_down_on_heap<T: PartialOrd>(s: Seq<T>, d: int, n: int, p: int)
    requires
        d >= 1,
        n <= s.len(),
        heap_from(s, d, n, 0),
    ensures
        sift_down_spec(s, d, n, p) == s,
{
    if !(p < 0 || p >= n || p * d + 1 >= n) {
        let first = p * d + 1;
        let end = if p * d + d + 1 < n { p * d + d + 1 } else { n };
        assert forall|c: int| first <= c < end implies le(#[trigger] s[c], s[p]) by {
            lemma_children(p, c, d);
        }
        lemma_larger_child_keeps(s, first, end, p);
    }
}

/// Building a heap over a heap moves nothing.
pub proof fn lemma_build_on_heap<T: PartialOrd>(s: Seq<T>, d: int, i: int)
    requires
        d >= 1,
        is_heap(s, d),
    ensures
        build_from(s, d, i) == s,
    decreases i,
{
    lemma_sift_down_on_heap(s, d, s.len() as int, i);
    if i > 0 {
        lemma_build_on_heap(s, d, i - 1);
    }
}

/// Every node `k` of the first `n` items of `s` whose parent lies in the
/// region `r` is at most its parent.
pub open spec fn heap_in<T: PartialOrd>(s: Seq<T>, d: int, n: int, r: spec_fn(int) -> bool) -> bool {
    forall|k: int|
        #![trigger s[k]]
        0 < k < n && r(parent_of(k, d)) ==> le(s[k], s[parent_of(k, d)])
}

/// Moves the item at `i` down until no child exceeds it, within the first `n`
/// items of `a`, and touches nothing outside the region `r`, which holds `i`
/// and every child of its nodes. Every node whose parent lies in `r` must
/// already be at most its parent, except the children of `i`; the children of
/// `i` must also be at most the parent of `i` when that parent lies in `r`.
fn sift_down<T: PartialOrd + Copy>(a: &mut Vec<T>, d: usize, n: usize, i: usize, Ghost(r): Ghost<spec_fn(int) -> bool>)
    requires
        total_order::<T>(),
        d >= 1,
        n <= old(a).len(),
        i < n,
        r(i as int),
        forall|c: int| c > 0 && #[trigger] r(parent_of(c, d as int)) ==> r(c),
        forall|k: int|
            #![trigger old(a)@[k]]
            0 < k < n && r(parent_of(k, d as int)) && parent_of(k, d as int) != i ==> le(
                old(a)@[k],
                old(a)@[parent_of(k, d as int)],
            ),
        i > 0 && r(parent_of(i as int, d as int)) ==> forall|c: int|
            #![trigger old(a)@[c]]
            0 < c < n && parent_of(c, d as int) == i ==> le(
                old(a)@[c],
                old(a)@[parent_of(i as int, d as int)],
            ),
    ensures
        final(a).len() == old(a).len(),
        final(a)@.to_multiset() == old(a)@.to_multiset(),
        forall|k: int| 0 <= k < old(a).len() && (!r(k) || n <= k) ==> #[trigger] final(a)@[k] == old(a)@[k],
        heap_in(final(a)@, d as int, n as int, r),
        final(a)@ == sift_down_spec(old(a)@, d as int, n as int, i as int),
{
    let ghost dd = d as int;
    let mut p: usize = i;
    loop
        invariant
            total_order::<T>(),
            d >= 1,
            dd == d as int,
            n <= a.len(),
            a.len() == old(a).len(),
            p < n,
            r(p as int),
            forall|c: int| c > 0 && #[trigger] r(parent_of(c, dd)) ==> r(c),
            a@.to_multiset() == old(a)@.to_multiset(),
            forall|k: int| 0 <= k < old(a).len() && (!r(k) || n <= k) ==> #[trigger] a@[k] == old(a)@[k],
            forall|k: int|
                #![trigger a@[k]]
                0 < k < n && r(parent_of(k, dd)) && parent_of(k, dd) != p ==> le(
                    a@[k],
                    a@[parent_of(k, dd)],
                ),
            p > 0 && r(parent_of(p as int, dd)) ==> forall|c: int|
                #![trigger a@[c]]
                0 < c < n && parent_of(c, dd) == p ==> le(a@[c], a@[parent_of(p as int, dd)]),
            sift_down_spec(a@, dd, n as int, p as int) == sift_down_spec(old(a)@, dd, n as int, i as int),
        ensures
            heap_in(a@, dd, n as int, r),
            a@ == sift_down_spec(old(a)@, dd, n as int, i as int),
        decreases n - p,
    {
        if n < 2 || p > (n - 2) / d {
            proof {
                assert forall|c: int| 0 < c < n implies parent_of(c, dd) != p by {
                    if n >= 2 {
                        lemma_first_child(p as int, n as int, dd);
                        lemma_children(p as int, c, dd);
                    }
                }
                if n >= 2 {
                    lemma_first_child(p as int, n as int, dd);
                }
                assert(heap_in(a@, dd, n as int, r));
            }
            break;
        }
        proof {
            lemma_first_child(p as int, n as int, dd);
            assert(p * dd >= p) by (nonlinear_arith)
                requires
                    dd >= 1,
                    p >= 0,
            ;
        }
        let first = p * d + 1;
        let end = if d < n - first {
            first + d
        } else {
            n
        };
        let ghost a0 = a@;
        let mut m: usize = p;
        let mut j: usize = first;
        while j < end
            invariant
                total_order::<T>(),
                n <= a.len(),
                a@ == a0,
                p < first <= j <= end <= n,
                m == p || first <= m < j,
                forall|c: int| first <= c < j ==> le(#[trigger] a@[c], a@[m as int]),
                m != p ==> !le(a@[m as int], a@[p as int]),
                larger_child(a0, j as int, end as int, m as int) == larger_child(a0, first as int, end as int, p as int),
            decreases end - j,
        {
            if greater(&a[j], &a[m]) {
                proof {
                    assert forall|c: int| first <= c < j implies le(#[trigger] a@[c], a@[j as int]) by {
                        lemma_le_total(a@[j as int], a@[m as int]);
                    }
                    lemma_le_total(a@[j as int], a@[j as int]);
                    if m != p {
                        lemma_le_total(a@[m as int], a@[p as int]);
                        lemma_le_total(a@[j as int], a@[p as int]);
                    }
                }
                m = j;
            } else {
                proof {
                    lemma_le_total(a@[j as int], a@[m as int]);
                }
            }
            j = j + 1;
        }
        proof {
            assert forall|c: int| 0 < c < n && parent_of(c, dd) == p implies first <= c < end by {
                lemma_children(p as int, c, dd);
            }
            assert(end as int == (if p * dd + dd + 1 < n { p * dd + dd + 1 } else { n as int }));
            assert(larger_child(a0, first as int, end as int, p as int) == m);
        }
        if m == p {
            proof {
                assert(heap_in(a@, dd, n as int, r));
            }
            break;
        }
        let ghost before = a@;
        let tmp = a[p];
        a.set(p, a[m]);
        a.set(m, tmp);
        proof {
            lemma_swap_multiset(before, p as int, m as int);
            assert(a@ == before.update(p as int, before[m as int]).update(m as int, before[p as int]));
            lemma_children(p as int, m as int, dd);
            lemma_le_total(before[m as int], before[p as int]);
            assert(r(m as int));
            assert forall|k: int|
                #![trigger a@[k]]
                0 < k < n && r(parent_of(k, dd)) && parent_of(k, dd) != m implies le(
                    a@[k],
                    a@[parent_of(k, dd)],
                ) by {
                lemma_parent_before(k, dd);
                if k == p {
                } else if k == m {
                } else if parent_of(k, dd) == p {
                    lemma_children(p as int, k, dd);
                } else {
                }
            }
            assert forall|c: int|
                #![trigger a@[c]]
                0 < c < n && parent_of(c, dd) == m implies le(a@[c], a@[parent_of(m as int, dd)]) by {
                lemma_parent_before(c, dd);
                lemma_parent_before(m as int, dd);
            }
        }
        p = m;
    }
}

/// Every node of `s` but `h` is at most its parent.
pub open spec fn heap_except<T: PartialOrd>(s: Seq<T>, d: int, h: int) -> bool {
    forall|k: int|
        #![trigger s[k]]
        0 < k < s.len() && k != h ==> le(s[k], s[parent_of(k, d)])
}

/// The children of `h` are at most the parent of `h`.
pub open spec fn children_below_grandparent<T: PartialOrd>(s: Seq<T>, d: int, h: int) -> bool {
    h > 0 ==> forall|c: int|
        #![trigger s[c]]
        0 < c < s.len() && parent_of(c, d) == h ==> le(s[c], s[parent_of(h, d)])
}

/// Places `v` at `i` and moves it up past every smaller ancestor, shifting
/// each such ancestor down one level instead of swapping pairwise.
fn sift_up<T: PartialOrd + Copy>(a: &mut Vec<T>, d: usize, i: usize, v: T)
    requires
        total_order::<T>(),
        d >= 1,
        i < old(a).len(),
        heap_except(old(a)@.update(i as int, v), d as int, i as int),
        children_below_grandparent(old(a)@.update(i as int, v), d as int, i as int),
    ensures
        final(a).len() == old(a).len(),
        final(a)@.to_multiset() == old(a)@.update(i as int, v).to_multiset(),
        is_heap(final(a)@, d as int),
        final(a)@ == sift_up_spec(old(a)@, d as int, i as int, v),
{
    let ghost dd = d as int;
    let mut h: usize = i;
    while h > 0
        invariant
            total_order::<T>(),
            d >= 1,
            dd == d as int,
            h < a.len(),
            a.len() == old(a).len(),
            a@.update(h as int, v).to_multiset() == old(a)@.update(i as int, v).to_multiset(),
            heap_except(a@.update(h as int, v), dd, h as int),
            children_below_grandparent(a@.update(h as int, v), dd, h as int),
            sift_up_spec(a@, dd, h as int, v) == sift_up_spec(old(a)@, dd, i as int, v),
        ensures
            h < a.len(),
            is_heap(a@.update(h as int, v), dd),
            a@.update(h as int, v) == sift_up_spec(old(a)@, dd, i as int, v),
        decreases h,
    {
        let p = (h - 1) / d;
        proof {
            lemma_parent_before(h as int, dd);
        }
        if !greater(&v, &a[p]) {
            proof {
                let b = a@.update(h as int, v);
                assert(b[p as int] == a@[p as int]);
                assert(is_heap(b, dd));
            }
            break;
        }
        let ghost b = a@.update(h as int, v);
        let val = a[p];
        a.set(h, val);
        proof {
            let b2 = a@.update(p as int, v);
            assert(b2 =~= b.update(h as int, b[p as int]).update(p as int, b[h as int]));
            lemma_swap_multiset(b, h as int, p as int);
            lemma_le_total(v, b[p as int]);
            assert forall|k: int|
                #![trigger b2[k]]
                0 < k < b2.len() && k != p implies le(b2[k], b2[parent_of(k, dd)]) by {
                lemma_parent_before(k, dd);
                if k == h {
                } else if parent_of(k, dd) == h {
                } else if parent_of(k, dd) == p {
                    assert(le(b[k], b[p as int]));
                } else {
                }
            }
            if p > 0 {
                lemma_parent_before(p as int, dd);
                assert(le(b[p as int], b[parent_of(p as int, dd)]));
                assert forall|c: int|
                    #![trigger b2[c]]
                    0 < c < b2.len() && parent_of(c, dd) == p implies le(
                        b2[c],
                        b2[parent_of(p as int, dd)],
                    ) by {
                    if c != h {
                        assert(le(b[c], b[p as int]));
                    }
                }
            }
        }
        h = p;
    }
    a.set(h, v);
}

/// Error of an operation that names an index outside `[0, size)`.
#[derive(Debug, Clone, Copy, PartialEq, Eq)]
pub enum HeapError {
    OutOfRange,
}

/// A max-heap of degree `d >= 1` stored densely in a vector: the children of
/// index `i` are `i * d + 1` to `i * d + d`.
pub struct DAryHeap<T> {
    degree: usize,
    array: Vec<T>,
}

impl<T> View for DAryHeap<T> {
    type V = Seq<T>;

    closed spec fn view(&self) -> Seq<T> {
        self.array@
    }
}

impl<T: PartialOrd + Copy> DAryHeap<T> {
    /// The branching factor.
    pub closed spec fn degree_spec(&self) -> int {
        self.degree as int
    }

    /// The degree is at least one.
    pub open spec fn wf(&self) -> bool {
        self.degree_spec() >= 1
    }

    /// Well formed, and no item exceeds its parent.
    pub open spec fn is_max_heap(&self) -> bool {
        self.wf() && is_heap(self@, self.degree_spec())
    }

    /// Builds a heap of the given degree over `initial_array`, in linear time.
    pub fn new(degree: usize, initial_array: Vec<T>) -> (r: Self)
        requires
            degree > 0,
            total_order::<T>(),
        ensures
            r.is_max_heap(),
            r.degree_spec() == degree,
            r@.to_multiset() == initial_array@.to_multiset(),
            r@ == built(initial_array@, degree as int),
            is_heap(initial_array@, degree as int) ==> r@ == initial_array@,
    {
        DAryHeap::build_heap(DAryHeap::unordered(degree, initial_array))
    }

    /// Takes `array` as it stands, without arranging it into a heap.
    pub fn unordered(degree: usize, array: Vec<T>) -> (r: Self)
        requires
            degree > 0,
        ensures
            r.wf(),
            r.degree_spec() == degree,
            r@ == array@,
    {
        DAryHeap { degree, array }
    }

    /// The items in their array order.
    pub fn as_slice(&self) -> (r: &[T])
        ensures
            r@ == self@,
    {
        self.array.as_slice()
    }

    /// Arranges the items into a heap: runs `heapfy` on every node that has
    /// a child, from the last such node back to the root.
    pub fn build_heap(self) -> (r: Self)
        requires
            self.wf(),
            total_order::<T>(),
        ensures
            r.is_max_heap(),
            r.degree_spec() == self.degree_spec(),
            r@.to_multiset() == self@.to_multiset(),
            r@ == built(self@, self.degree_spec()),
            is_heap(self@, self.degree_spec()) ==> r@ == self@,
    {
        let mut heap = self;
        if heap.array.len() == 0 {
            return heap;
        }
        let n = heap.array.len();
        let mut i = (n - 1) / heap.degree;
        let ghost d = heap.degree as int;
        let ghost i0 = i as int;
        proof {
            assert forall|k: int| 0 < k < n implies parent_of(k, d) <= i by {
                vstd::arithmetic::div_mod::lemma_div_is_ordered(k - 1, n - 1, d);
            }
            vstd::arithmetic::div_mod::lemma_div_is_ordered_by_denominator(n - 1, 1, d);
            if is_heap(self@, d) {
                lemma_build_on_heap(self@, d, i0);
            }
        }
        loop
            invariant
                total_order::<T>(),
                heap.wf(),
                d == heap.degree as int,
                heap.degree_spec() == self.degree_spec(),
                heap.array.len() == n,
                n == self@.len(),
                i < n,
                heap@.to_multiset() == self@.to_multiset(),
                heap_from(heap@, d, n as int, i + 1),
                build_from(heap@, d, i as int) == build_from(self@, d, i0),
                i0 == (n - 1) / d,
                is_heap(self@, d) ==> build_from(self@, d, i0) == self@,
            ensures
                heap.is_max_heap(),
                heap.degree_spec() == self.degree_spec(),
                heap@.to_multiset() == self@.to_multiset(),
                heap@ == built(self@, d),
            decreases i,
        {
            let ghost h0 = heap@;
            proof {
                assert forall|k: int|
                    #![trigger h0[k]]
                    0 < k < n && in_subtree(k, i as int, d) && k != i && parent_of(k, d) != i implies le(
                        h0[k],
                        h0[parent_of(k, d)],
                    ) by {
                    lemma_subtree(k, i as int, d);
                    lemma_subtree(parent_of(k, d), i as int, d);
                }
            }
            heap.heapfy(i);
            proof {
                let h1 = heap@;
                assert forall|k: int|
                    #![trigger h1[k]]
                    0 < k < n && parent_of(k, d) >= i implies le(h1[k], h1[parent_of(k, d)]) by {
                    lemma_parent_before(k, d);
                    lemma_subtree(k, i as int, d);
                    lemma_subtree(parent_of(k, d), i as int, d);
                    if !in_subtree(k, i as int, d) {
                        assert(!in_subtree(parent_of(k, d), i as int, d));
                        assert(h1[k] == h0[k]);
                    }
                }
            }
            if i == 0 {
                proof {
                    assert(heap@ == build_from(h0, d, 0));
                    assert(heap@ == built(self@, d));
                }
                return heap;
            }
            i = i - 1;
        }
    }

    /// Moves the item at `i` down below every larger child until the subtree
    /// of `i` is a heap, given that every node of that subtree but `i` and
    /// its children is already at most its parent. Nothing outside the
    /// subtree moves.
    pub fn heapfy(&mut self, i: usize)
        requires
            old(self).wf(),
            total_order::<T>(),
            i < old(self)@.len(),
            forall|k: int|
                #![trigger old(self)@[k]]
                0 < k < old(self)@.len() && in_subtree(k, i as int, old(self).degree_spec()) && k != i
                    && parent_of(k, old(self).degree_spec()) != i ==> le(
                    old(self)@[k],
                    old(self)@[parent_of(k, old(self).degree_spec())],
                ),
        ensures
            final(self).wf(),
            final(self).degree_spec() == old(self).degree_spec(),
            final(self)@.len() == old(self)@.len(),
            final(self)@.to_multiset() == old(self)@.to_multiset(),
            forall|k: int|
                0 <= k < old(self)@.len() && !in_subtree(k, i as int, old(self).degree_spec())
                    ==> #[trigger] final(self)@[k] == old(self)@[k],
            forall|k: int|
                #![trigger final(self)@[k]]
                0 < k < old(self)@.len() && in_subtree(k, i as int, old(self).degree_spec()) && k != i ==> le(
                    final(self)@[k],
                    final(self)@[parent_of(k, old(self).degree_spec())],
                ),
            final(self)@ == sift_down_spec(old(self)@, old(self).degree_spec(), old(self)@.len() as int, i as int),
    {
        let n = self.array.len();
        let ghost d = self.degree as int;
        let ghost r = |k: int| in_subtree(k, i as int, d);
        proof {
            assert forall|c: int| c > 0 && #[trigger] r(parent_of(c, d)) implies r(c) by {
                lemma_subtree(c, i as int, d);
            }
            assert forall|k: int|
                #![trigger self@[k]]
                0 < k < n && r(parent_of(k, d)) && parent_of(k, d) != i implies le(self@[k], self@[parent_of(k, d)]) by {
                lemma_parent_before(k, d);
                lemma_subtree(k, i as int, d);
                lemma_subtree(parent_of(k, d), i as int, d);
            }
            if i > 0 {
                lemma_parent_before(i as int, d);
                lemma_subtree(parent_of(i as int, d), i as int, d);
            }
        }
        sift_down(&mut self.array, self.degree, n, i, Ghost(r));
        proof {
            assert forall|k: int|
                #![trigger self@[k]]
                0 < k < n && in_subtree(k, i as int, d) && k != i implies le(self@[k], self@[parent_of(k, d)]) by {
                lemma_subtree(k, i as int, d);
                assert(r(parent_of(k, d)));
            }
        }
    }

    /// Number of items.
    pub fn size(&self) -> (r: usize)
        ensures
            r == self@.len(),
    {
        self.array.len()
    }

    /// The largest item, without removing it; `None` when empty.
    pub fn max(&self) -> (r: Option<T>)
        requires
            self.is_max_heap(),
            total_order::<T>(),
        ensures
            self@.len() == 0 ==> r is None,
            self@.len() > 0 ==> r == Some(self@[0]),
            r matches Some(m) ==> forall|k: int| 0 <= k < self@.len() ==> le(#[trigger] self@[k], m),
    {
        if self.array.len() == 0 {
            None
        } else {
            proof {
                assert forall|k: int| 0 <= k < self@.len() implies le(#[trigger] self@[k], self@[0]) by {
                    lemma_root_is_max(self@, self.degree as int, self@.len() as int, k);
                }
            }
            Some(self.array[0])
        }
    }

    /// Adds `key`, moving it up past every smaller ancestor.
    pub fn insert(&mut self, key: T)
        requires
            old(self).is_max_heap(),
            total_order::<T>(),
            old(self)@.len() < usize::MAX,
        ensures
            final(self).is_max_heap(),
            final(self).degree_spec() == old(self).degree_spec(),
            final(self)@.len() == old(self)@.len() + 1,
            final(self)@.to_multiset() == old(self)@.to_multiset().insert(key),
            final(self)@ == sift_up_spec(
                old(self)@.push(key),
                old(self).degree_spec(),
                old(self)@.len() as int,
                key,
            ),
    {
        let ghost d = self.degree as int;
        self.array.push(key);
        let i = self.array.len() - 1;
        if i == 0 {
            proof {
                assert(self@.update(0, key) =~= self@);
            }
            return;
        }
        proof {
            let b = self.array@.update(i as int, key);
            assert(b =~= self.array@);
            assert forall|c: int| 0 < c < b.len() implies parent_of(c, d) != i by {
                lemma_parent_before(c, d);
                lemma_children(i as int, c, d);
                assert(i * d >= i) by (nonlinear_arith)
                    requires
                        d >= 1,
                        i >= 0,
                ;
            }
            assert forall|k: int| #![trigger b[k]] 0 < k < b.len() && k != i implies le(b[k], b[parent_of(k, d)]) by {
                lemma_parent_before(k, d);
                assert(b[k] == old(self)@[k]);
            }
        }
        sift_up(&mut self.array, self.degree, i, key);
    }

    /// Removes and returns the largest item; `None` when empty.
    pub fn extract_max(&mut self) -> (r: Option<T>)
        requires
            old(self).is_max_heap(),
            total_order::<T>(),
        ensures
            final(self).is_max_heap(),
            final(self).degree_spec() == old(self).degree_spec(),
            old(self)@.len() == 0 ==> r is None && final(self)@ == old(self)@,
            old(self)@.len() > 0 ==> {
                &&& r == Some(old(self)@[0])
                &&& final(self)@.len() == old(self)@.len() - 1
                &&& final(self)@.to_multiset() == old(self)@.to_multiset().remove(old(self)@[0])
                &&& forall|k: int|
                    0 <= k < old(self)@.len() ==> le(#[trigger] old(self)@[k], old(self)@[0])
                &&& final(self)@ == sift_down_spec(
                    old(self)@.update(0, old(self)@.last()).drop_last(),
                    old(self).degree_spec(),
                    old(self)@.len() - 1,
                    0,
                )
            },
    {
        let ghost d = self.degree as int;
        let len = self.array.len();
        if len == 0 {
            return None;
        }
        proof {
            assert forall|k: int| 0 <= k < old(self)@.len() implies le(#[trigger] old(self)@[k], old(self)@[0]) by {
                lemma_root_is_max(old(self)@, d, len as int, k);
            }
        }
        let top = self.array[0];
        let last = self.array[len - 1];
        self.array.set(0, last);
        self.array.set(len - 1, top);
        proof {
            lemma_swap_multiset(old(self)@, 0, len - 1);
        }
        let v = self.array.pop();
        proof {
            let s = old(self)@.update(0, old(self)@[len - 1]).update(len - 1, old(self)@[0]);
            assert(s.remove(len - 1) =~= self@);
            assert(self@ =~= old(self)@.update(0, old(self)@.last()).drop_last());
            assert(self@.to_multiset() =~= old(self)@.to_multiset().remove(old(self)@[0]));
            assert forall|k: int| #![trigger self@[k]]
                0 < k < self@.len() && parent_of(k, d) >= 0 && parent_of(k, d) != 0 implies le(self@[k], self@[parent_of(k, d)]) by {
                lemma_parent_before(k, d);
                assert(self@[k] == old(self)@[k]);
                assert(self@[parent_of(k, d)] == old(self)@[parent_of(k, d)]);
            }
        }
        if self.array.len() > 1 {
            let n = self.array.len();
            sift_down(&mut self.array, self.degree, n, 0, Ghost(|k: int| k >= 0));
        }
        v
    }

    /// Sets the item at `i` to `v` and restores the heap: down when `v` is
    /// smaller than the item it replaces, up otherwise.
    fn update_key(&mut self, i: usize, v: T)
        requires
            old(self).is_max_heap(),
            total_order::<T>(),
            i < old(self)@.len(),
        ensures
            final(self).is_max_heap(),
            final(self).degree_spec() == old(self).degree_spec(),
            final(self)@.len() == old(self)@.len(),
            final(self)@.to_multiset() == old(self)@.update(i as int, v).to_multiset(),
            final(self)@ == replace_spec(old(self)@, old(self).degree_spec(), i as int, v),
    {
        let ghost d = self.degree as int;
        let ghost s = self@;
        let ghost b = s.update(i as int, v);
        if greater(&self.array[i], &v) {
            self.array.set(i, v);
            proof {
                lemma_le_total(s[i as int], v);
                assert forall|k: int| #![trigger b[k]]
                    0 < k < b.len() && parent_of(k, d) >= 0 && parent_of(k, d) != i implies le(b[k], b[parent_of(k, d)]) by {
                    if k == i {
                    }
                }
                if i > 0 {
                    lemma_parent_before(i as int, d);
                    assert forall|c: int| #![trigger b[c]]
                        0 < c < b.len() && parent_of(c, d) == i implies le(b[c], b[parent_of(i as int, d)]) by {
                        lemma_parent_before(c, d);
                        assert(le(s[c], s[i as int]));
                        assert(le(s[i as int], s[parent_of(i as int, d)]));
                    }
                }
            }
            let n = self.array.len();
            sift_down(&mut self.array, self.degree, n, i, Ghost(|k: int| k >= 0));
        } else if greater(&v, &self.array[i]) {
            proof {
                lemma_le_total(v, s[i as int]);
                assert forall|k: int| #![trigger b[k]]
                    0 < k < b.len() && k != i implies le(b[k], b[parent_of(k, d)]) by {
                    lemma_parent_before(k, d);
                    if parent_of(k, d) == i {
                        assert(le(s[k], s[i as int]));
                    }
                }
                if i > 0 {
                    lemma_parent_before(i as int, d);
                    assert forall|c: int| #![trigger b[c]]
                        0 < c < b.len() && parent_of(c, d) == i implies le(b[c], b[parent_of(i as int, d)]) by {
                        lemma_parent_before(c, d);
                        assert(le(s[c], s[i as int]));
                        assert(le(s[i as int], s[parent_of(i as int, d)]));
                    }
                }
            }
            sift_up(&mut self.array, self.degree, i, v);
        } else {
            // equal: written in place
            self.array.set(i, v);
            proof {
                lemma_le_total(v, s[i as int]);
                assert forall|k: int| #![trigger b[k]]
                    0 < k < b.len() implies le(b[k], b[parent_of(k, d)]) by {
                    lemma_parent_before(k, d);
                    if parent_of(k, d) == i {
                        assert(le(s[k], s[i as int]));
                    } else if k == i {
                        assert(le(s[i as int], s[parent_of(i as int, d)]));
                    }
                }
            }
        }
    }

    /// Replaces the item at `i` by `new_value`: a smaller value sifts down, a
    /// larger one sifts up. Fails, changing nothing, when `i` is out of range.
    pub fn replace(&mut self, i: usize, new_value: T) -> (r: Result<(), HeapError>)
        requires
            old(self).is_max_heap(),
            total_order::<T>(),
        ensures
            final(self).is_max_heap(),
            final(self).degree_spec() == old(self).degree_spec(),
            i >= old(self)@.len() ==> r == Err::<(), HeapError>(HeapError::OutOfRange) && final(self)@ == old(self)@,
            i < old(self)@.len() ==> {
                &&& r is Ok
                &&& final(self)@.len() == old(self)@.len()
                &&& final(self)@.to_multiset() == old(self)@.update(i as int, new_value).to_multiset()
                &&& final(self)@ == replace_spec(old(self)@, old(self).degree_spec(), i as int, new_value)
            },
            i < old(self)@.len() && le(new_value, old(self)@[i as int]) && le(old(self)@[i as int], new_value)
                ==> final(self)@ == old(self)@.update(i as int, new_value),
    {
        if i >= self.array.len() {
            return Err(HeapError::OutOfRange);
        }
        self.update_key(i, new_value);
        Ok(())
    }

    /// Like `replace`, but changes nothing unless `new_value` is greater than
    /// the item at `i`.
    pub fn replace_if_greater(&mut self, i: usize, new_value: T) -> (r: Result<(), HeapError>)
        requires
            old(self).is_max_heap(),
            total_order::<T>(),
        ensures
            final(self).is_max_heap(),
            final(self).degree_spec() == old(self).degree_spec(),
            i >= old(self)@.len() ==> r == Err::<(), HeapError>(HeapError::OutOfRange) && final(self)@ == old(self)@,
            i < old(self)@.len() && le(new_value, old(self)@[i as int]) ==> r is Ok && final(self)@ == old(self)@,
            i < old(self)@.len() && !le(new_value, old(self)@[i as int]) ==> {
                &&& r is Ok
                &&& final(self)@.len() == old(self)@.len()
                &&& final(self)@.to_multiset() == old(self)@.update(i as int, new_value).to_multiset()
                &&& final(self)@ == sift_up_spec(old(self)@, old(self).degree_spec(), i as int, new_value)
            },
    {
        if i >= self.array.len() {
            return Err(HeapError::OutOfRange);
        }
        if greater(&new_value, &self.array[i]) {
            proof {
                lemma_le_total(new_value, self@[i as int]);
            }
            self.update_key(i, new_value);
        }
        Ok(())
    }

    /// Removes and returns the item at `i`: the last item takes its place and
    /// is moved up or down, whichever restores the heap. Moving it down alone
    /// would not do: the last item may be larger than the new parent it gets.
    /// Fails, changing nothing, when `i` is out of range.
    pub fn delete(&mut self, i: usize) -> (r: Result<T, HeapError>)
        requires
            old(self).is_max_heap(),
            total_order::<T>(),
        ensures
            final(self).is_max_heap(),
            final(self).degree_spec() == old(self).degree_spec(),
            i >= old(self)@.len() ==> r == Err::<T, HeapError>(HeapError::OutOfRange) && final(self)@ == old(self)@,
            i < old(self)@.len() ==> {
                &&& r == Ok::<T, HeapError>(old(self)@[i as int])
                &&& final(self)@.len() == old(self)@.len() - 1
                &&& final(self)@.to_multiset() == old(self)@.to_multiset().remove(old(self)@[i as int])
                &&& final(self)@ == (if i == old(self)@.len() - 1 {
                    old(self)@.drop_last()
                } else {
                    replace_spec(old(self)@.drop_last(), old(self).degree_spec(), i as int, old(self)@.last())
                })
            },
    {
        broadcast use vstd::multiset::group_multiset_axioms;

        if i >= self.array.len() {
            return Err(HeapError::OutOfRange);
        }
        let ghost s = self@;
        let ghost d = self.degree as int;
        let last = match self.array.pop() {
            Some(x) => x,
            None => { return Err(HeapError::OutOfRange); },
        };
        proof {
            assert(s.remove(s.len() - 1) =~= self@);
            assert forall|k: int| #![trigger self@[k]]
                0 < k < self@.len() && parent_of(k, d) >= 0 implies le(self@[k], self@[parent_of(k, d)]) by {
                lemma_parent_before(k, d);
                assert(self@[k] == s[k]);
                assert(self@[parent_of(k, d)] == s[parent_of(k, d)]);
            }
        }
        if i == self.array.len() {
            proof {
                assert(self@ =~= s.drop_last());
            }
            return Ok(last);
        }
        proof {
            assert(self@ =~= s.drop_last());
        }
        let removed = self.array[i];
        self.update_key(i, last);
        proof {
            let t = s.remove(s.len() - 1);
            assert(t.to_multiset() == s.to_multiset().remove(last));
            assert(t.update(i as int, last).to_multiset() == t.to_multiset().insert(last).remove(removed));
            assert(s.to_multiset().contains(last));
            assert(self@.to_multiset() =~= s.to_multiset().remove(removed));
        }
        Ok(removed)
    }

    /// Sorts the items in ascending order in place and hands them over as a
    /// `SortedSequence`; the heap is consumed.
    pub fn heapsort(self) -> (r: SortedSequence<T>)
        requires
            self.is_max_heap(),
            total_order::<T>(),
        ensures
            r.wf(),
            r.degree_spec() == self.degree_spec(),
            r@.len() == self@.len(),
            r@.to_multiset() == self@.to_multiset(),
    {
        let d = self.degree;
        let mut a = self.array;
        let n = a.len();
        let mut end = n;
        while end > 1
            invariant
                total_order::<T>(),
                d >= 1,
                d == self.degree,
                a.len() == n,
                0 <= end <= n,
                n <= 1 ==> end == n,
                a@.to_multiset() == self@.to_multiset(),
                heap_from(a@, d as int, end as int, 0),
                forall|i: int, j: int| end <= i < j < n ==> le(#[trigger] a@[i], #[trigger] a@[j]),
                end < n ==> forall|k: int| 0 <= k < end ==> le(#[trigger] a@[k], a@[end as int]),
            ensures
                a@.to_multiset() == self@.to_multiset(),
                sorted(a@),
            decreases end,
        {
            let ghost s = a@;
            proof {
                assert forall|k: int| 0 <= k < end implies le(#[trigger] s[k], s[0]) by {
                    lemma_root_is_max(s, d as int, end as int, k);
                }
            }
            end = end - 1;
            let top = a[0];
            let last = a[end];
            a.set(0, last);
            a.set(end, top);
            let ghost t = a@;
            proof {
                lemma_swap_multiset(s, 0, end as int);
                assert(t =~= s.update(0, s[end as int]).update(end as int, s[0]));
                assert forall|k: int| #![trigger t[k]]
                    0 < k < end && parent_of(k, d as int) >= 0 && parent_of(k, d as int) != 0 implies le(t[k], t[parent_of(k, d as int)]) by {
                    lemma_parent_before(k, d as int);
                }
            }
            sift_down(&mut a, d, end, 0, Ghost(|k: int| k >= 0));
            proof {
                broadcast use vstd::multiset::group_multiset_axioms;

                let u = a@;
                // the live prefix holds the same items as before the sift
                assert(t =~= t.subrange(0, end as int) + t.subrange(end as int, n as int));
                assert(u =~= u.subrange(0, end as int) + u.subrange(end as int, n as int));
                assert(u.subrange(end as int, n as int) =~= t.subrange(end as int, n as int));
                vstd::seq_lib::lemma_multiset_commutative(t.subrange(0, end as int), t.subrange(end as int, n as int));
                vstd::seq_lib::lemma_multiset_commutative(u.subrange(0, end as int), u.subrange(end as int, n as int));
                let pu = u.subrange(0, end as int);
                let pt = t.subrange(0, end as int);
                let sfx = t.subrange(end as int, n as int);
                assert(u == pu + sfx);
                assert(t == pt + sfx);
                assert(pu.to_multiset().add(sfx.to_multiset()) == pt.to_multiset().add(sfx.to_multiset()));
                assert forall|x: T| pu.to_multiset().count(x) == pt.to_multiset().count(x) by {
                    assert(pu.to_multiset().add(sfx.to_multiset()).count(x) == pt.to_multiset().add(sfx.to_multiset()).count(x));
                }
                assert(pu.to_multiset() =~= pt.to_multiset());
                assert forall|k: int| 0 <= k < end implies le(#[trigger] t.subrange(0, end as int)[k], t[end as int]) by {
                    if k == 0 {
                        lemma_le_total(s[end as int], s[0]);
                    } else {
                        assert(t[k] == s[k]);
                    }
                }
                let top = t[end as int];
                lemma_all_by_multiset(t.subrange(0, end as int), u.subrange(0, end as int), |x: T| le(x, top));
                assert forall|k: int| 0 <= k < end implies le(#[trigger] u[k], u[end as int]) by {
                    assert(u[k] == u.subrange(0, end as int)[k]);
                }
                assert forall|i: int, j: int| end <= i < j < n implies le(#[trigger] u[i], #[trigger] u[j]) by {
                    if i == end as int {
                        if end + 1 < n {
                            assert(le(s[0], s[end + 1]));
                            assert(le(s[end + 1], s[j]) || j == end + 1);
                            if j != end + 1 {
                                assert(le(s[end + 1], s[j]));
                            }
                        }
                    } else {
                        assert(u[i] == s[i] && u[j] == s[j]);
                    }
                }
            }
        }
        SortedSequence { degree: d, array: a }
    }
}

/// Reverses `v` in place.
pub fn reverse_in_place<T: Copy>(v: &mut Vec<T>)
    ensures
        final(v)@ == old(v)@.reverse(),
{
    let n = v.len();
    let mut i: usize = 0;
    while i < n / 2
        invariant
            v.len() == n,
            n == old(v)@.len(),
            i <= n / 2,
            forall|k: int| 0 <= k < i || n - i <= k < n ==> #[trigger] v@[k] == old(v)@[n - 1 - k],
            forall|k: int| i <= k < n - i ==> #[trigger] v@[k] == old(v)@[k],
        decreases n / 2 - i,
    {
        let x = v[i];
        let y = v[n - 1 - i];
        v.set(i, y);
        v.set(n - 1 - i, x);
        i = i + 1;
    }
    assert(v@ =~= old(v)@.reverse());
}

/// Items in ascending order, left behind by `heapsort`. Only read access is
/// offered; `to_priority_queue` turns it back into a heap.
pub struct SortedSequence<T> {
    degree: usize,
    array: Vec<T>,
}

impl<T> View for SortedSequence<T> {
    type V = Seq<T>;

    closed spec fn view(&self) -> Seq<T> {
        self.array@
    }
}

impl<T: PartialOrd + Copy> SortedSequence<T> {
    /// The degree of the heap it came from.
    pub closed spec fn degree_spec(&self) -> int {
        self.degree as int
    }

    /// The degree is at least one and the items ascend.
    pub open spec fn wf(&self) -> bool {
        self.degree_spec() >= 1 && sorted(self@)
    }

    /// Number of items.
    pub fn len(&self) -> (r: usize)
        ensures
            r == self@.len(),
    {
        self.array.len()
    }

    /// The item at `i`, or `None` past the end.
    pub fn get(&self, i: usize) -> (r: Option<T>)
        ensures
            i < self@.len() ==> r == Some(self@[i as int]),
            i >= self@.len() ==> r is None,
    {
        if i < self.array.len() {
            Some(self.array[i])
        } else {
            None
        }
    }

    /// The items in ascending order.
    pub fn as_slice(&self) -> (r: &[T])
        ensures
            r@ == self@,
    {
        self.array.as_slice()
    }

    /// Whether each item is at most the next one.
    pub fn is_sorted(&self) -> (r: bool)
        requires
            total_order::<T>(),
        ensures
            r == sorted(self@),
    {
        let n = self.array.len();
        let mut i: usize = 1;
        while i < n
            invariant
                total_order::<T>(),
                n == self@.len(),
                1 <= i,
                forall|k: int| 1 <= k < i && k < n ==> le(#[trigger] self@[k - 1], self@[k]),
            decreases n - i,
        {
            if greater(&self.array[i - 1], &self.array[i]) {
                return false;
            }
            i = i + 1;
        }
        proof {
            assert forall|x: int, y: int| 0 <= x < y < n implies le(#[trigger] self@[x], #[trigger] self@[y]) by {
                lemma_ascending_steps(self@, x, y);
            }
        }
        true
    }

    /// Reverses the items (ascending to descending) and builds a heap of the
    /// same degree over them.
    pub fn to_priority_queue(self) -> (r: DAryHeap<T>)
        requires
            self.wf(),
            total_order::<T>(),
        ensures
            r.is_max_heap(),
            r.degree_spec() == self.degree_spec(),
            r@.to_multiset() == self@.to_multiset(),
            r@ == built(self@.reverse(), self.degree_spec()),
    {
        let mut a = self.array;
        reverse_in_place(&mut a);
        proof {
            self@.lemma_reverse_to_multiset();
        }
        DAryHeap::build_heap(DAryHeap { degree: self.degree, array: a })
    }
}

/// A sequence in which each item is at most the next ascends throughout.
pub proof fn lemma_ascending_steps<T: PartialOrd>(s: Seq<T>, x: int, y: int)
    requires
        total_order::<T>(),
        forall|k: int| 1 <= k < s.len() ==> le(#[trigger] s[k - 1], s[k]),
        0 <= x < y < s.len(),
    ensures
        le(s[x], s[y]),
    decreases y - x,
{
    if y == x + 1 {
        assert(le(s[y - 1], s[y]));
    } else {
        lemma_ascending_steps(s, x, y - 1);
        assert(le(s[y - 1], s[y]));
    }
}

/// Heapsort is correct and reversible: for a heap built over `xs`, the
/// sequence that `heapsort` leaves ascends and holds exactly the items of
/// `xs`, and the heap that `to_priority_queue` rebuilds from it is a valid
/// heap over those same items.
pub proof fn law_heapsort_round_trip<T: PartialOrd + Copy>(
    xs: Seq<T>,
    built: DAryHeap<T>,
    out: SortedSequence<T>,
    back: DAryHeap<T>,
)
    requires
        total_order::<T>(),
        built.is_max_heap(),
        built@.to_multiset() == xs.to_multiset(),
        out.wf(),
        out@.to_multiset() == built@.to_multiset(),
        back.is_max_heap(),
        back@.to_multiset() == out@.to_multiset(),
    ensures
        sorted(out@),
        out@.len() == xs.len(),
        out@.to_multiset() == xs.to_multiset(),
        back.is_max_heap(),
        back@.to_multiset() == xs.to_multiset(),
{
    assert(out@.to_multiset().len() == out@.len());
    assert(xs.to_multiset().len() == xs.len());
}

/// Inserting an item and then deleting that item again, wherever it ended
/// up, leaves the heap with the items it had before.
pub proof fn law_insert_then_delete<T>(before: Seq<T>, key: T, inserted: Seq<T>, i: int, after: Seq<T>)
    requires
        inserted.to_multiset() == before.to_multiset().insert(key),
        0 <= i < inserted.len(),
        inserted[i] == key,
        after.to_multiset() == inserted.to_multiset().remove(inserted[i]),
    ensures
        after.to_multiset() == before.to_multiset(),
{
    broadcast use vstd::multiset::group_multiset_axioms;

    assert(after.to_multiset() =~= before.to_multiset());
}

} // verus!
