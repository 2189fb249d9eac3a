//! Merging ascending sequences into one, with a max-heap choosing the next
//! item among one candidate per sequence.
use crate::heap::{reverse_in_place, DAryHeap};
use crate::multiset_facts::{lemma_all_by_multiset, lemma_map_multiset, lemma_some_by_multiset};
use crate::order::{le, lemma_le_total, sorted, sorted_desc, total_order};
use core::cmp::Ordering;
use vstd::multiset::Multiset;
use vstd::prelude::*;
use vstd::std_specs::cmp::PartialOrdSpec;

verus! {

broadcast use vstd::seq_lib::group_to_multiset_ensures;

/// An item tagged with the index of the list it came from; tags take no part
/// in the comparison.
#[derive(Clone, Copy, Debug, PartialEq)]
struct IndexValue<T>(usize, T);

impl<T: PartialOrd> PartialOrd for IndexValue<T> {
    fn partial_cmp(&self, other: &Self) -> (r: Option<Ordering>) {
        self.1.partial_cmp(&other.1)
    }
}

impl<T: PartialOrd> vstd::std_specs::cmp::PartialOrdSpecImpl for IndexValue<T> {
    open spec fn obeys_partial_cmp_spec() -> bool {
        T::obeys_partial_cmp_spec()
    }

    closed spec fn partial_cmp_spec(&self, other: &Self) -> Option<Ordering> {
        self.1.partial_cmp_spec(&other.1)
    }
}

/// Tagged items compare as their items do, so they are totally ordered too.
proof fn lemma_index_value_order<T: PartialOrd>()
    requires
        total_order::<T>(),
    ensures
        total_order::<IndexValue<T>>(),
{
    assert forall|a: IndexValue<T>, b: IndexValue<T>| #[trigger] a.partial_cmp_spec(&b) is Some by {
        assert(a.1.partial_cmp_spec(&b.1) is Some);
    }
    assert forall|a: IndexValue<T>, b: IndexValue<T>|
        (#[trigger] a.partial_cmp_spec(&b) == Some(Ordering::Less)) == (#[trigger] b.partial_cmp_spec(&a) == Some(
            Ordering::Greater,
        )) by {
        assert((a.1.partial_cmp_spec(&b.1) == Some(Ordering::Less)) == (b.1.partial_cmp_spec(&a.1) == Some(
            Ordering::Greater,
        )));
    }
    assert forall|a: IndexValue<T>, b: IndexValue<T>, c: IndexValue<T>|
        #[trigger] le(a, b) && #[trigger] le(b, c) implies le(a, c) by {
        assert(le(a.1, b.1) && le(b.1, c.1));
    }
}

/// The contents of each list.
pub open spec fn lists_view<T>(v: Seq<Vec<T>>) -> Seq<Seq<T>> {
    v.map_values(|l: Vec<T>| l@)
}

/// The items behind the tags.
spec fn values<T>(s: Seq<IndexValue<T>>) -> Seq<T> {
    s.map_values(|e: IndexValue<T>| e.1)
}

/// For each list, its first `rem[j]` items: those not yet handed to the heap.
spec fn pending<T>(lists: Seq<Seq<T>>, rem: Seq<usize>) -> Seq<Seq<T>> {
    Seq::new(lists.len(), |j: int| lists[j].subrange(0, rem[j] as int))
}

/// All items of all the sequences, with multiplicity.
spec fn ms_sum<T>(s: Seq<Seq<T>>) -> Multiset<T>
    decreases s.len(),
{
    if s.len() == 0 {
        Multiset::empty()
    } else {
        ms_sum(s.drop_last()).add(s.last().to_multiset())
    }
}

proof fn lemma_ms_sum_flatten<T>(s: Seq<Seq<T>>)
    ensures
        s.flatten().to_multiset() == ms_sum(s),
    decreases s.len(),
{
    if s.len() > 0 {
        lemma_ms_sum_flatten(s.drop_last());
        assert(s =~= s.drop_last().push(s.last()));
        s.drop_last().lemma_flatten_push(s.last());
        vstd::seq_lib::lemma_multiset_commutative(s.drop_last().flatten(), s.last());
    } else {
        assert(s.flatten() =~= Seq::<T>::empty());
    }
}

proof fn lemma_ms_sum_update<T>(s: Seq<Seq<T>>, j: int, x: Seq<T>)
    requires
        0 <= j < s.len(),
    ensures
        ms_sum(s.update(j, x)).add(s[j].to_multiset()) == ms_sum(s).add(x.to_multiset()),
    decreases s.len(),
{
    broadcast use vstd::multiset::group_multiset_axioms;

    let u = s.update(j, x);
    if j == s.len() - 1 {
        assert(u.drop_last() =~= s.drop_last());
        assert(ms_sum(u).add(s[j].to_multiset()) =~= ms_sum(s).add(x.to_multiset()));
    } else {
        assert(u.drop_last() =~= s.drop_last().update(j, x));
        lemma_ms_sum_update(s.drop_last(), j, x);
        assert(ms_sum(u) == ms_sum(u.drop_last()).add(u.last().to_multiset()));
        assert(ms_sum(s) == ms_sum(s.drop_last()).add(s.last().to_multiset()));
        assert(u.last() == s.last());
        assert(s.drop_last()[j] == s[j]);
        let d = s.drop_last();
        assert forall|v: T|
            #[trigger] ms_sum(u).add(s[j].to_multiset()).count(v) == ms_sum(s).add(x.to_multiset()).count(v) by {
            assert(ms_sum(d.update(j, x)).add(d[j].to_multiset()).count(v) == ms_sum(d).add(
                x.to_multiset(),
            ).count(v));
        }
        assert(ms_sum(u).add(s[j].to_multiset()) =~= ms_sum(s).add(x.to_multiset()));
    }
}

proof fn lemma_ms_sum_empty<T>(s: Seq<Seq<T>>)
    requires
        forall|j: int| 0 <= j < s.len() ==> (#[trigger] s[j]).len() == 0,
    ensures
        ms_sum(s) == Multiset::<T>::empty(),
    decreases s.len(),
{
    broadcast use vstd::multiset::group_multiset_axioms;

    if s.len() > 0 {
        lemma_ms_sum_empty(s.drop_last());
        assert(s.last() =~= Seq::<T>::empty());
        assert(ms_sum(s) =~= Multiset::<T>::empty());
    }
}

/// Merges ascending lists into one ascending list holding all their items.
/// The lists are consumed from their ends: the heap holds the last unused
/// item of each list, the largest of them goes out, and the next item of its
/// list takes its place. The descending output is reversed at the end.
/// Items that compare equal may come out in any order of their lists.
pub fn merge_sorted<T: PartialOrd + Copy>(sorted_lists: Vec<Vec<T>>) -> (r: Vec<T>)
    requires
        total_order::<T>(),
        forall|j: int| 0 <= j < sorted_lists@.len() ==> sorted(#[trigger] sorted_lists@[j]@),
        lists_view(sorted_lists@).flatten().len() <= usize::MAX,
    ensures
        sorted(r@),
        r@.len() == lists_view(sorted_lists@).flatten().len(),
        r@.to_multiset() == lists_view(sorted_lists@).flatten().to_multiset(),
{
    broadcast use vstd::multiset::group_multiset_axioms;

    let ghost lists = lists_view(sorted_lists@);
    let num_of_lists = sorted_lists.len();
    proof {
        lemma_index_value_order::<T>();
        lemma_ms_sum_flatten(lists);
    }
    // rem[j]: how many items at the front of list j are not yet in the heap
    let mut rem: Vec<usize> = Vec::new();
    let mut initial_array: Vec<IndexValue<T>> = Vec::new();
    for i in 0..num_of_lists
        invariant
            total_order::<T>(),
            forall|j: int| 0 <= j < sorted_lists@.len() ==> sorted(#[trigger] sorted_lists@[j]@),
            num_of_lists == sorted_lists@.len(),
            lists == lists_view(sorted_lists@),
            rem@.len() == i,
            forall|j: int| 0 <= j < i ==> #[trigger] rem@[j] <= lists[j].len(),
            forall|e: int|
                0 <= e < initial_array@.len() ==> {
                    let iv = #[trigger] initial_array@[e];
                    &&& iv.0 < i
                    &&& rem@[iv.0 as int] < lists[iv.0 as int].len()
                    &&& forall|t: int| 0 <= t < rem@[iv.0 as int] ==> le(#[trigger] lists[iv.0 as int][t], iv.1)
                },
            forall|j: int|
                0 <= j < i && rem@[j] > 0 ==> exists|e: int|
                    0 <= e < initial_array@.len() && (#[trigger] initial_array@[e]).0 == j,
            values(initial_array@).to_multiset().add(ms_sum(pending(lists.subrange(0, i as int), rem@)))
                == ms_sum(lists.subrange(0, i as int)),
    {
        let list = &sorted_lists[i];
        let ghost old_rem = rem@;
        let ghost old_init = initial_array@;
        if list.len() > 0 {
            let last_index = list.len() - 1;
            initial_array.push(IndexValue(i, list[last_index]));
            rem.push(last_index);
        } else {
            rem.push(0);
        }
        proof {
            let l = lists[i as int];
            assert(l == sorted_lists@[i as int]@);
            let pend_old = pending(lists.subrange(0, i as int), old_rem);
            let pend_new = pending(lists.subrange(0, i + 1), rem@);
            assert(pend_new.drop_last() =~= pend_old);
            assert(lists.subrange(0, i + 1).drop_last() =~= lists.subrange(0, i as int));
            if l.len() > 0 {
                assert(l =~= l.subrange(0, l.len() - 1).push(l[l.len() - 1]));
                assert(values(initial_array@) =~= values(old_init).push(l[l.len() - 1]));
                assert forall|t: int| 0 <= t < l.len() - 1 implies le(#[trigger] l[t], l[l.len() - 1]) by {
                }
                assert forall|j: int| 0 <= j < i + 1 && rem@[j] > 0 implies exists|e: int|
                    0 <= e < initial_array@.len() && (#[trigger] initial_array@[e]).0 == j by {
                    if j == i {
                        assert(initial_array@[old_init.len() as int].0 == j);
                    } else {
                        let e = choose|e: int| 0 <= e < old_init.len() && (#[trigger] old_init[e]).0 == j;
                        assert(initial_array@[e].0 == j);
                    }
                }
            } else {
                assert(l.subrange(0, 0) =~= l);
                assert(initial_array@ == old_init);
            }
            assert(values(initial_array@).to_multiset().add(ms_sum(pend_new)) =~= ms_sum(lists.subrange(0, i + 1)));
        }
    }
    proof {
        assert(lists.subrange(0, num_of_lists as int) =~= lists);
    }
    let mut heap = DAryHeap::new(2, initial_array);
    let mut merged_vec: Vec<T> = Vec::new();
    let ghost total = lists.flatten().len();
    proof {
        lemma_map_multiset(initial_array@, heap@, |e: IndexValue<T>| e.1);
        let ia = initial_array@;
        let hv = heap@;
        lemma_all_by_multiset(ia, hv, |iv: IndexValue<T>| {
            &&& iv.0 < num_of_lists
            &&& rem@[iv.0 as int] < lists[iv.0 as int].len()
            &&& forall|t: int| 0 <= t < rem@[iv.0 as int] ==> le(#[trigger] lists[iv.0 as int][t], iv.1)
        });
        assert forall|j: int| 0 <= j < num_of_lists && rem@[j] > 0 implies exists|e: int|
            0 <= e < hv.len() && (#[trigger] hv[e]).0 == j by {
            let e = choose|e: int| 0 <= e < ia.len() && (#[trigger] ia[e]).0 == j;
            if forall|f: int| 0 <= f < hv.len() ==> (#[trigger] hv[f]).0 != j {
                lemma_all_by_multiset(hv, ia, |iv: IndexValue<T>| iv.0 != j);
            }
        }
    }
    while heap.size() >= 1
        invariant
            total_order::<T>(),
            total_order::<IndexValue<T>>(),
            num_of_lists == sorted_lists@.len(),
            lists == lists_view(sorted_lists@),
            forall|j: int| 0 <= j < sorted_lists@.len() ==> sorted(#[trigger] sorted_lists@[j]@),
            total == lists.flatten().len(),
            total <= usize::MAX,
            lists.flatten().to_multiset() == ms_sum(lists),
            heap.is_max_heap(),
            rem@.len() == num_of_lists,
            forall|j: int| 0 <= j < num_of_lists ==> #[trigger] rem@[j] <= lists[j].len(),
            forall|e: int|
                0 <= e < heap@.len() ==> {
                    let iv = #[trigger] heap@[e];
                    &&& iv.0 < num_of_lists
                    &&& rem@[iv.0 as int] < lists[iv.0 as int].len()
                    &&& forall|t: int| 0 <= t < rem@[iv.0 as int] ==> le(#[trigger] lists[iv.0 as int][t], iv.1)
                },
            forall|j: int|
                0 <= j < num_of_lists && rem@[j] > 0 ==> exists|e: int|
                    0 <= e < heap@.len() && (#[trigger] heap@[e]).0 == j,
            sorted_desc(merged_vec@),
            merged_vec@.len() > 0 ==> forall|e: int|
                0 <= e < heap@.len() ==> le((#[trigger] heap@[e]).1, merged_vec@.last()),
            merged_vec@.to_multiset().add(values(heap@).to_multiset()).add(ms_sum(pending(lists, rem@)))
                == ms_sum(lists),
        decreases total - merged_vec@.len(),
    {
        let top = heap.max().unwrap();
        let IndexValue(list_index, value) = top;
        let ghost h0 = heap@;
        let ghost rem0 = rem@;
        let ghost m0 = merged_vec@;
        let ghost j = list_index as int;
        let ghost f = |e: IndexValue<T>| e.1;
        proof {
            assert(h0[0] == top);
            assert(h0.to_multiset().len() == h0.len());
            assert(values(h0).to_multiset().len() == h0.len());
            assert(m0.to_multiset().len() == m0.len());
            assert(ms_sum(lists).len() == total);
            assert(m0.len() + 1 <= total);
            assert forall|e: int| 0 <= e < h0.len() implies le((#[trigger] h0[e]).1, value) by {
                assert(le(h0[e], top));
            }
            if m0.len() > 0 {
                assert(le(value, m0.last()));
                assert forall|a: int, b: int| 0 <= a < b < m0.len() + 1 implies le(#[trigger] m0.push(value)[b], #[trigger] m0.push(value)[a]) by {
                    if b == m0.len() {
                        if a < m0.len() - 1 {
                            assert(le(m0[m0.len() - 1], m0[a]));
                        }
                    }
                }
            }
            assert(values(h0)[0] == value);
        }
        let ghost lj = lists[j];
        if rem[list_index] > 0 {
            let next = rem[list_index] - 1;
            let cand = IndexValue(list_index, sorted_lists[list_index][next]);
            let _ = heap.replace(0, cand);
            rem.set(list_index, next);
            proof {
                let w = lj[next as int];
                let hu = h0.update(0, cand);
                assert(sorted_lists@[j]@ == lj);
                assert(cand.1 == w);
                // the items of the heap
                lemma_map_multiset(heap@, hu, f);
                assert(values(hu) =~= values(h0).update(0, w));
                assert(values(heap@).to_multiset() == values(h0).to_multiset().insert(w).remove(value));
                // the items still pending
                let pend0 = pending(lists, rem0);
                let pend1 = pending(lists, rem@);
                assert(pend1 =~= pend0.update(j, lj.subrange(0, next as int)));
                lemma_ms_sum_update(pend0, j, lj.subrange(0, next as int));
                assert(lj.subrange(0, rem0[j] as int) =~= lj.subrange(0, next as int).push(w));
                assert(pend0[j] == lj.subrange(0, rem0[j] as int));
                assert(pend0.update(j, lj.subrange(0, next as int))[j] == lj.subrange(0, next as int));
                assert(lj.subrange(0, rem0[j] as int).to_multiset() == lj.subrange(0, next as int).to_multiset().insert(w));
                let short = lj.subrange(0, next as int).to_multiset();
                assert(ms_sum(pend1).add(short.insert(w)) == ms_sum(pend0).add(short));
                assert forall|v: T| #[trigger] ms_sum(pend1).insert(w).count(v) == ms_sum(pend0).count(v) by {
                    assert(ms_sum(pend1).add(short.insert(w)).count(v) == ms_sum(pend0).add(short).count(v));
                }
                assert(ms_sum(pend1).insert(w) =~= ms_sum(pend0));
                // every tagged item bounds what is pending of its list
                assert forall|t: int| 0 <= t < next implies le(#[trigger] lists[j][t], w) by {}
                assert(le(w, value)) by {
                    assert(le(lists[j][next as int], h0[0].1));
                }
                lemma_all_by_multiset(hu, heap@, |iv: IndexValue<T>| {
                    &&& iv.0 < num_of_lists
                    &&& rem@[iv.0 as int] < lists[iv.0 as int].len()
                    &&& forall|t: int| 0 <= t < rem@[iv.0 as int] ==> le(#[trigger] lists[iv.0 as int][t], iv.1)
                });
                lemma_all_by_multiset(hu, heap@, |iv: IndexValue<T>| le(iv.1, value));
                assert forall|jj: int| 0 <= jj < num_of_lists && rem@[jj] > 0 implies exists|e: int|
                    0 <= e < heap@.len() && (#[trigger] heap@[e]).0 == jj by {
                    if jj == j {
                        lemma_some_by_multiset(hu, heap@, |iv: IndexValue<T>| iv.0 == jj, 0);
                    } else {
                        let e = choose|e: int| 0 <= e < h0.len() && (#[trigger] h0[e]).0 == jj;
                        lemma_some_by_multiset(hu, heap@, |iv: IndexValue<T>| iv.0 == jj, e);
                    }
                }
            }
        } else {
            let _ = heap.extract_max();
            proof {

                let hr = h0.remove(0);
                assert(hr.to_multiset() == heap@.to_multiset());
                lemma_map_multiset(heap@, hr, f);
                assert(values(hr) =~= values(h0).remove(0));
                assert(values(heap@).to_multiset() == values(h0).to_multiset().remove(value));
                assert(rem@ == rem0);
                lemma_all_by_multiset(hr, heap@, |iv: IndexValue<T>| {
                    &&& iv.0 < num_of_lists
                    &&& rem@[iv.0 as int] < lists[iv.0 as int].len()
                    &&& forall|t: int| 0 <= t < rem@[iv.0 as int] ==> le(#[trigger] lists[iv.0 as int][t], iv.1)
                });
                lemma_all_by_multiset(hr, heap@, |iv: IndexValue<T>| le(iv.1, value));
                assert forall|jj: int| 0 <= jj < num_of_lists && rem@[jj] > 0 implies exists|e: int|
                    0 <= e < heap@.len() && (#[trigger] heap@[e]).0 == jj by {
                    let e = choose|e: int| 0 <= e < h0.len() && (#[trigger] h0[e]).0 == jj;
                    assert(e != 0);
                    assert(hr[e - 1] == h0[e]);
                    lemma_some_by_multiset(hr, heap@, |iv: IndexValue<T>| iv.0 == jj, e - 1);
                }
            }
        }
        merged_vec.push(value);
        proof {
            assert(merged_vec@ == m0.push(value));
            assert(merged_vec@.to_multiset() == m0.to_multiset().insert(value));
            assert(values(h0).to_multiset().count(value) > 0) by {
                assert(values(h0).contains(value));
            }
            assert(merged_vec@.to_multiset().add(values(heap@).to_multiset()).add(ms_sum(pending(lists, rem@)))
                =~= ms_sum(lists));
        }
    }
    proof {
        assert(heap@.len() == 0);
        assert forall|j: int| 0 <= j < num_of_lists implies #[trigger] rem@[j] == 0 by {
            if rem@[j] > 0 {
                let e = choose|e: int| 0 <= e < heap@.len() && (#[trigger] heap@[e]).0 == j;
            }
        }
        let p = pending(lists, rem@);
        assert forall|j: int| 0 <= j < p.len() implies (#[trigger] p[j]).len() == 0 by {}
        lemma_ms_sum_empty(p);
        assert(values(heap@) =~= Seq::<T>::empty());
        assert(merged_vec@.to_multiset() =~= ms_sum(lists));
    }
    let ghost desc = merged_vec@;
    reverse_in_place(&mut merged_vec);
    proof {
        desc.lemma_reverse_to_multiset();
        assert(desc.to_multiset().len() == desc.len());
        assert forall|a: int, b: int| 0 <= a < b < merged_vec@.len() implies le(#[trigger] merged_vec@[a], #[trigger] merged_vec@[b]) by {
            assert(merged_vec@[a] == desc[desc.len() - 1 - a]);
            assert(merged_vec@[b] == desc[desc.len() - 1 - b]);
        }
    }
    merged_vec
}

} // verus!
