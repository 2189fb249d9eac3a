//! The ordering that the generic algorithms of this crate rely on.
use core::cmp::Ordering;
use vstd::std_specs::cmp::PartialOrdSpec;
use vstd::prelude::*;

verus! {

/// `a` is at most `b` under the comparison of `T`.
pub open spec fn le<T: PartialOrd>(a: T, b: T) -> bool {
    a.partial_cmp_spec(&b) matches Some(Ordering::Less | Ordering::Equal)
}

/// The comparison of `T` is a total preorder: any two values compare, `a < b`
/// holds exactly when `b > a`, and `<=` is transitive. Integers and `char`
/// compare this way; a floating-point type does not (NaN compares with nothing).
pub open spec fn total_order<T: PartialOrd>() -> bool {
    &&& T::obeys_partial_cmp_spec()
    &&& forall|a: T, b: T| #[trigger] a.partial_cmp_spec(&b) is Some
    &&& forall|a: T, b: T|
        #![trigger a.partial_cmp_spec(&b), b.partial_cmp_spec(&a)]
        (a.partial_cmp_spec(&b) == Some(Ordering::Less)) == (b.partial_cmp_spec(&a) == Some(
            Ordering::Greater,
        ))
    &&& forall|a: T, b: T, c: T| #[trigger] le(a, b) && #[trigger] le(b, c) ==> le(a, c)
}

/// Under a total order, any two values are related one way or the other, and
/// every value is at most itself.
pub proof fn lemma_le_total<T: PartialOrd>(a: T, b: T)
    requires
        total_order::<T>(),
    ensures
        le(a, b) || le(b, a),
        le(a, a),
{
    assert(a.partial_cmp_spec(&b) is Some);
    assert(b.partial_cmp_spec(&a) is Some);
    assert(a.partial_cmp_spec(&a) is Some);
}

/// The integer types used most often compare as a total order.
pub proof fn lemma_integers_total_order()
    ensures
        total_order::<i32>(),
        total_order::<i64>(),
        total_order::<u8>(),
        total_order::<u64>(),
        total_order::<usize>(),
{
}

/// `s` is in ascending order.
pub open spec fn sorted<T: PartialOrd>(s: Seq<T>) -> bool {
    forall|i: int, j: int| 0 <= i < j < s.len() ==> le(#[trigger] s[i], #[trigger] s[j])
}

/// `s` is in descending order.
pub open spec fn sorted_desc<T: PartialOrd>(s: Seq<T>) -> bool {
    forall|i: int, j: int| 0 <= i < j < s.len() ==> le(#[trigger] s[j], #[trigger] s[i])
}

/// Whether `a` compares strictly greater than `b`.
pub fn greater<T: PartialOrd>(a: &T, b: &T) -> (r: bool)
    requires
        total_order::<T>(),
    ensures
        r == !le(*a, *b),
{
    match a.partial_cmp(b) {
        Some(Ordering::Greater) => true,
        _ => false,
    }
}

} // verus!
