//! Logic gates on single bits: the lowest bit of each input is the bit.
use vstd::prelude::*;

verus! {

/// The `and` gate: 1 exactly when both input bits are 1.
pub fn and(a: u8, b: u8) -> (r: u8)
    ensures
        r == (if a % 2 == 1 && b % 2 == 1 { 1u8 } else { 0u8 }),
{
    assert((a & b) % 2 == (if a % 2 == 1 && b % 2 == 1 { 1u8 } else { 0u8 })) by (bit_vector);
    (a & b) % 2
}

/// The `xor` gate: 1 exactly when one input bit is 1 and the other is 0.
pub fn xor(a: u8, b: u8) -> (r: u8)
    ensures
        r == (if a % 2 != b % 2 { 1u8 } else { 0u8 }),
{
    assert((a ^ b) % 2 == (if a % 2 != b % 2 { 1u8 } else { 0u8 })) by (bit_vector);
    (a ^ b) % 2
}

} // verus!
