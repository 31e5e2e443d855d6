//! Laws of the keys by which costs are ordered.
use crate::cost_key::{cost_key32, cost_key64};
use vstd::prelude::*;

verus! {

/// The keys of single-precision numbers order as the numbers do: a set sign bit means negative, a
/// greater magnitude lies farther from zero, and the two zeros are equal.
pub proof fn law_key32_orders(a: u32, b: u32, key_a: u64, key_b: u64)
    requires
        call_ensures(cost_key32, (a,), key_a),
        call_ensures(cost_key32, (b,), key_b),
    ensures
        a < 0x8000_0000 && b < 0x8000_0000 ==> (key_a < key_b <==> a < b),
        a > 0x8000_0000 && b < 0x8000_0000 ==> key_a < key_b,
        a >= 0x8000_0000 && b >= 0x8000_0000 ==> (key_a < key_b <==> a > b),
        a == 0x8000_0000 && b == 0 ==> key_a == key_b,
        a != b && !(a == 0 && b == 0x8000_0000) && !(a == 0x8000_0000 && b == 0) ==> key_a != key_b,
{
}

/// The keys of double-precision numbers order as the numbers do.
pub proof fn law_key64_orders(a: u64, b: u64, key_a: u64, key_b: u64)
    requires
        call_ensures(cost_key64, (a,), key_a),
        call_ensures(cost_key64, (b,), key_b),
    ensures
        a < 0x8000_0000_0000_0000 && b < 0x8000_0000_0000_0000 ==> (key_a < key_b <==> a < b),
        a > 0x8000_0000_0000_0000 && b < 0x8000_0000_0000_0000 ==> key_a < key_b,
        a >= 0x8000_0000_0000_0000 && b >= 0x8000_0000_0000_0000 ==> (key_a < key_b <==> a > b),
        a == 0x8000_0000_0000_0000 && b == 0 ==> key_a == key_b,
        a != b && !(a == 0 && b == 0x8000_0000_0000_0000) && !(a == 0x8000_0000_0000_0000 && b == 0)
            ==> key_a != key_b,
{
}

} // verus!
