//! The longest palindrome grown outwards from a given middle.
use core::ops::Range;
use vstd::prelude::*;
use vstd::std_specs::cmp::PartialEqSpec;

verus! {

/// How many steps a palindrome with middle `(left0, right0)` can grow
/// outwards inside a sequence of `length` items. An even middle
/// (`right0 == left0 + 1`) counts the step that takes in the middle pair.
pub fn max_wing_size(length: usize, left0: usize, right0: usize) -> (r: usize)
    requires
        left0 <= right0 < length,
        right0 - left0 <= 1,
    ensures
        r == (if left0 <= length - 1 - right0 { left0 } else { (length - 1 - right0) as usize }) + (if left0
            != right0 {
            1usize
        } else {
            0usize
        }),
{
    let room_right = length - 1 - right0;
    let ans = if left0 < room_right {
        left0
    } else {
        room_right
    };
    if left0 != right0 {
        return ans + 1;
    }
    ans
}

/// `s[l..=r]` reads the same both ways: each item before the middle equals
/// its mirror image.
pub open spec fn mirrored<T: PartialEq>(s: Seq<T>, l: int, r: int) -> bool {
    forall|k: int| l <= k && 2 * k < l + r ==> (#[trigger] s[k]).eq_spec(&s[l + r - k])
}

/// The longest palindrome of `s` with middle `(left0, right0)`: a single item
/// when the two are equal, a pair otherwise. Returns its range and length;
/// for a pair that does not match, the empty range at `right0`.
pub fn max_palindrome_from_middle<T: PartialEq>(s: &[T], left0: usize, right0: usize) -> (r: (Range<usize>, usize))
    requires
        T::obeys_eq_spec(),
        left0 <= right0 < s@.len(),
        right0 - left0 <= 1,
    ensures
        r.0.start <= r.0.end <= s@.len(),
        r.1 == r.0.end - r.0.start,
        r.0.start + r.0.end == left0 + right0 + 1,
        mirrored(s@, r.0.start as int, r.0.end - 1),
        r.0.start == 0 || r.0.end == s@.len() || !s@[r.0.start - 1].eq_spec(&s@[r.0.end as int]),
{
    let n = s.len();
    let max_wing = max_wing_size(n, left0, right0);
    let mut left = left0;
    let mut right = right0;
    if left != right {
        left += 1;
        right -= 1;
    }
    let ghost left_init = left as int;
    let ghost right_init = right as int;
    let mut step: usize = 0;
    while step < max_wing
        invariant
            T::obeys_eq_spec(),
            n == s@.len(),
            left0 <= right0 < s@.len(),
            right0 - left0 <= 1,
            left_init + right_init == left0 + right0,
            left_init == right0,
            max_wing == (if left0 <= s@.len() - 1 - right0 { left0 as int } else { s@.len() - 1 - right0 }) + (
            if left0 != right0 {
                1int
            } else {
                0int
            }),
            step <= max_wing,
            left + step == left_init,
            right == right_init + step,
            mirrored(s@, left as int, right as int),
        decreases max_wing - step,
    {
        assert(right + 1 < s@.len()) by {
            if left0 <= s@.len() - 1 - right0 {
            } else {
            }
        }
        left -= 1;
        right += 1;
        if s[left] != s[right] {
            let start = left + 1;
            let len = right - start;
            return (start..right, len);
        }
        proof {
            assert forall|k: int| left <= k && 2 * k < left + right implies (#[trigger] s@[k]).eq_spec(
                &s@[left + right - k],
            ) by {
                if k != left {
                    assert(s@[k].eq_spec(&s@[(left + 1) + (right - 1) - k]));
                }
            }
        }
        step = step + 1;
    }
    let end = right + 1;
    (left..end, end - left)
}

} // verus!
