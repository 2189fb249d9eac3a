//! Facts about the items of sequences counted with multiplicity.
use vstd::prelude::*;

verus! {

broadcast use vstd::seq_lib::group_to_multiset_ensures;

/// Exchanging two items keeps the same items.
pub proof fn lemma_swap_multiset<T>(s: Seq<T>, i: int, j: int)
    requires
        0 <= i < s.len(),
        0 <= j < s.len(),
    ensures
        s.update(i, s[j]).update(j, s[i]).to_multiset() == s.to_multiset(),
{
    broadcast use vstd::multiset::group_multiset_axioms;

    let t = s.update(i, s[j]);
    assert(t.to_multiset() == s.to_multiset().insert(s[j]).remove(s[i]));
    assert(t.update(j, s[i]).to_multiset() == t.to_multiset().insert(s[i]).remove(t[j]));
    if i == j {
        assert(s.update(i, s[j]).update(j, s[i]) =~= s);
    } else {
        assert(t[j] == s[j]);
        assert(t.update(j, s[i]).to_multiset() =~= s.to_multiset());
    }
}

/// Sequences with the same items keep the same items under a map.
pub proof fn lemma_map_multiset<A, B>(a: Seq<A>, b: Seq<A>, f: spec_fn(A) -> B)
    requires
        a.to_multiset() == b.to_multiset(),
    ensures
        a.map_values(f).to_multiset() == b.map_values(f).to_multiset(),
    decreases a.len(),
{
    broadcast use vstd::multiset::group_multiset_axioms;

    assert(a.to_multiset().len() == a.len());
    assert(b.to_multiset().len() == b.len());
    if a.len() == 0 {
        assert(b.len() == 0);
        assert(a.map_values(f) =~= Seq::<B>::empty());
        assert(b.map_values(f) =~= Seq::<B>::empty());
    } else {
        let x = a.last();
        assert(a.contains(x));
        assert(b.to_multiset().count(x) > 0);
        assert(b.contains(x));
        let i = choose|i: int| 0 <= i < b.len() && b[i] == x;
        let a2 = a.drop_last();
        let b2 = b.remove(i);
        assert(a =~= a2.push(x));
        assert(a2.to_multiset() =~= a.to_multiset().remove(x));
        assert(b2.to_multiset() == b.to_multiset().remove(x));
        lemma_map_multiset(a2, b2, f);
        assert(a.map_values(f) =~= a2.map_values(f).push(f(x)));
        assert(b.map_values(f).remove(i) =~= b2.map_values(f));
        assert(b.map_values(f)[i] == f(x));
        assert(b.map_values(f).to_multiset().count(f(x)) > 0) by {
            assert(b.map_values(f).contains(f(x)));
        }
        assert(a.map_values(f).to_multiset() =~= b.map_values(f).to_multiset());
    }
}

/// Whatever holds of every item of `a` holds of every item of a sequence
/// with the same items.
pub proof fn lemma_all_by_multiset<A>(a: Seq<A>, b: Seq<A>, p: spec_fn(A) -> bool)
    requires
        a.to_multiset() == b.to_multiset(),
        forall|i: int| 0 <= i < a.len() ==> p(#[trigger] a[i]),
    ensures
        forall|i: int| 0 <= i < b.len() ==> p(#[trigger] b[i]),
{
    assert forall|i: int| 0 <= i < b.len() implies p(#[trigger] b[i]) by {
        let x = b[i];
        assert(b.contains(x));
        assert(a.to_multiset().count(x) > 0);
        assert(a.contains(x));
    }
}

/// If some item of `a` has a property, some item of a sequence with the same
/// items has it.
pub proof fn lemma_some_by_multiset<A>(a: Seq<A>, b: Seq<A>, p: spec_fn(A) -> bool, i: int)
    requires
        a.to_multiset() == b.to_multiset(),
        0 <= i < a.len(),
        p(a[i]),
    ensures
        exists|e: int| 0 <= e < b.len() && p(#[trigger] b[e]),
{
    if forall|e: int| 0 <= e < b.len() ==> !p(#[trigger] b[e]) {
        lemma_all_by_multiset(b, a, |x: A| !p(x));
    }
}

/// When two sequences hold the same items and agree outside `lo..hi`, their
/// parts within `lo..hi` hold the same items.
pub proof fn lemma_range_multiset<A>(s0: Seq<A>, s1: Seq<A>, lo: int, hi: int)
    requires
        0 <= lo <= hi <= s0.len(),
        s0.len() == s1.len(),
        s0.to_multiset() == s1.to_multiset(),
        forall|k: int| 0 <= k < lo || hi <= k < s0.len() ==> s0[k] == s1[k],
    ensures
        s0.subrange(lo, hi).to_multiset() == s1.subrange(lo, hi).to_multiset(),
{
    broadcast use vstd::multiset::group_multiset_axioms;

    let n = s0.len() as int;
    let (a0, b0, c0) = (s0.subrange(0, lo), s0.subrange(lo, hi), s0.subrange(hi, n));
    let (a1, b1, c1) = (s1.subrange(0, lo), s1.subrange(lo, hi), s1.subrange(hi, n));
    assert(a0 =~= a1);
    assert(c0 =~= c1);
    assert(s0 =~= a0 + b0 + c0);
    assert(s1 =~= a1 + b1 + c1);
    vstd::seq_lib::lemma_multiset_commutative(a0 + b0, c0);
    vstd::seq_lib::lemma_multiset_commutative(a0, b0);
    vstd::seq_lib::lemma_multiset_commutative(a1 + b1, c1);
    vstd::seq_lib::lemma_multiset_commutative(a1, b1);
    assert forall|x: A| #[trigger] b0.to_multiset().count(x) == b1.to_multiset().count(x) by {
        assert(s0.to_multiset().count(x) == s1.to_multiset().count(x));
        assert((a0 + b0 + c0).to_multiset().count(x) == (a0 + b0).to_multiset().count(x) + c0.to_multiset().count(x));
        assert((a1 + b1 + c1).to_multiset().count(x) == (a1 + b1).to_multiset().count(x) + c1.to_multiset().count(x));
        assert((a0 + b0).to_multiset().count(x) == a0.to_multiset().count(x) + b0.to_multiset().count(x));
        assert((a1 + b1).to_multiset().count(x) == a1.to_multiset().count(x) + b1.to_multiset().count(x));
    }
    assert(b0.to_multiset() =~= b1.to_multiset());
}

/// Parts that hold the same items as the parts of another sequence, and agree
/// with it elsewhere, make a sequence with the same items.
pub proof fn lemma_whole_multiset<T>(s0: Seq<T>, s1: Seq<T>, lo: int, hi: int)
    requires
        0 <= lo <= hi <= s0.len(),
        s0.len() == s1.len(),
        s0.subrange(lo, hi).to_multiset() == s1.subrange(lo, hi).to_multiset(),
        forall|k: int| 0 <= k < lo || hi <= k < s0.len() ==> s0[k] == s1[k],
    ensures
        s0.to_multiset() == s1.to_multiset(),
{
    let n = s0.len() as int;
    assert(s0.subrange(0, lo) =~= s1.subrange(0, lo));
    assert(s0.subrange(hi, n) =~= s1.subrange(hi, n));
    assert(s0 =~= s0.subrange(0, lo) + s0.subrange(lo, hi) + s0.subrange(hi, n));
    assert(s1 =~= s1.subrange(0, lo) + s1.subrange(lo, hi) + s1.subrange(hi, n));
    vstd::seq_lib::lemma_multiset_commutative(s0.subrange(0, lo) + s0.subrange(lo, hi), s0.subrange(hi, n));
    vstd::seq_lib::lemma_multiset_commutative(s0.subrange(0, lo), s0.subrange(lo, hi));
    vstd::seq_lib::lemma_multiset_commutative(s1.subrange(0, lo) + s1.subrange(lo, hi), s1.subrange(hi, n));
    vstd::seq_lib::lemma_multiset_commutative(s1.subrange(0, lo), s1.subrange(lo, hi));
}

} // verus!
