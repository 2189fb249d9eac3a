//! Addition of binary numbers stored one bit per byte, least significant
//! bit first.
use vstd::arithmetic::power2::{lemma_pow2_unfold, pow2};
use vstd::prelude::*;

verus! {

/// Each item is 0 or 1.
pub open spec fn is_bits(s: Seq<u8>) -> bool {
    forall|i: int| 0 <= i < s.len() ==> #[trigger] s[i] <= 1
}

/// The number that `s` stands for: `s[0] * 2^0 + s[1] * 2^1 + ...`.
pub open spec fn bits_value(s: Seq<u8>) -> nat
    decreases s.len(),
{
    if s.len() == 0 {
        0
    } else {
        bits_value(s.drop_last()) + (s.last() as nat) * pow2((s.len() - 1) as nat)
    }
}

/// Adds the binary numbers `arr1` and `arr2`, of the same length `n`, into
/// the `n + 1` bits of `result`, which are overwritten.
pub fn binary_add(arr1: &[u8], arr2: &[u8], result: &mut [u8])
    requires
        arr1@.len() == arr2@.len(),
        old(result)@.len() == arr1@.len() + 1,
        is_bits(arr1@),
        is_bits(arr2@),
    ensures
        final(result)@.len() == old(result)@.len(),
        is_bits(final(result)@),
        bits_value(final(result)@) == bits_value(arr1@) + bits_value(arr2@),
{
    let n = arr1.len();
    let mut carry: u8 = 0;
    let mut i: usize = 0;
    while i < n
        invariant
            n == arr1@.len(),
            n == arr2@.len(),
            result@.len() == n + 1,
            i <= n,
            carry <= 1,
            is_bits(arr1@),
            is_bits(arr2@),
            forall|k: int| 0 <= k < i ==> #[trigger] result@[k] <= 1,
            bits_value(result@.subrange(0, i as int)) + carry * pow2(i as nat) == bits_value(
                arr1@.subrange(0, i as int),
            ) + bits_value(arr2@.subrange(0, i as int)),
        decreases n - i,
    {
        let b1 = arr1[i];
        let b2 = arr2[i];
        let sum = b1 + b2 + carry;
        let ghost before = result@;
        result[i] = sum % 2;
        let next_carry = sum >> 1;
        proof {
            assert(sum >> 1 == sum / 2) by (bit_vector);
            lemma_pow2_unfold((i + 1) as nat);
            let r1 = result@.subrange(0, i + 1);
            assert(r1.drop_last() =~= before.subrange(0, i as int));
            assert(result@.subrange(0, i as int) =~= before.subrange(0, i as int));
            assert(arr1@.subrange(0, i + 1).drop_last() =~= arr1@.subrange(0, i as int));
            assert(arr2@.subrange(0, i + 1).drop_last() =~= arr2@.subrange(0, i as int));
            let p = pow2(i as nat);
            assert((sum % 2) * p + (sum / 2) * (2 * p) == sum * p) by (nonlinear_arith)
                requires
                    sum <= 3,
            ;
            assert((b1 + b2 + carry) * p == b1 * p + b2 * p + carry * p) by (nonlinear_arith);
        }
        carry = next_carry;
        i = i + 1;
    }
    let ghost before = result@;
    result[n] = carry;
    proof {
        assert(result@.drop_last() =~= before.subrange(0, n as int));
        assert(bits_value(result@) == bits_value(result@.drop_last()) + (carry as nat) * pow2(n as nat));
        assert(arr1@.subrange(0, n as int) =~= arr1@);
        assert(arr2@.subrange(0, n as int) =~= arr2@);
    }
}

} // verus!
