//! Keys by which costs are ordered.
//!
//! A cost is a floating-point number. As far as costs are only compared, the library takes keys in
//! their place, which are made from their bits.
use vstd::prelude::*;

verus! {

/// The place of a single-precision number in the order of all numbers: its magnitude, counted down
/// where its sign is set. Both zeros have the same place.
pub open spec fn place32(bits: u32) -> int {
    if bits < 0x8000_0000 {
        bits as int
    } else {
        0x8000_0000 - bits
    }
}

/// The place of a double-precision number in the order of all numbers.
pub open spec fn place64(bits: u64) -> int {
    if bits < 0x8000_0000_0000_0000 {
        bits as int
    } else {
        0x8000_0000_0000_0000 - bits
    }
}

/// The key of a single-precision cost.
pub fn cost_key32(bits: u32) -> (key: u64)
    ensures
        key == place32(bits) + 0x8000_0000,
{
    if bits < 0x8000_0000 {
        bits as u64 + 0x8000_0000
    } else {
        0x1_0000_0000 - bits as u64
    }
}

/// The key of a double-precision cost.
pub fn cost_key64(bits: u64) -> (key: u64)
    ensures
        key == place64(bits) + 0x8000_0000_0000_0000,
{
    if bits < 0x8000_0000_0000_0000 {
        bits + 0x8000_0000_0000_0000
    } else {
        0x8000_0000_0000_0000 - (bits - 0x8000_0000_0000_0000)
    }
}

} // verus!
