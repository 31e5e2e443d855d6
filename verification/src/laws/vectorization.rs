//! Laws of the smallest lane.
use crate::vectorization::{min_lane_u32x8, min_lane_u64x8};
use vstd::prelude::*;

verus! {

/// The smallest lane is one of the lanes, and no lane is smaller.
pub proof fn law_min_lane_u32x8(v: [u32; 8], m: u32)
    requires
        call_ensures(min_lane_u32x8, (v,), m),
    ensures
        forall|i: int| 0 <= i < 8 ==> m <= #[trigger] v@[i],
        exists|i: int| 0 <= i < 8 && m == #[trigger] v@[i],
{
    let i = v@.index_of(m);
    assert(v@[i] == m);
}

/// The smallest lane is one of the lanes, and no lane is smaller.
pub proof fn law_min_lane_u64x8(v: [u64; 8], m: u64)
    requires
        call_ensures(min_lane_u64x8, (v,), m),
    ensures
        forall|i: int| 0 <= i < 8 ==> m <= #[trigger] v@[i],
        exists|i: int| 0 <= i < 8 && m == #[trigger] v@[i],
{
    let i = v@.index_of(m);
    assert(v@[i] == m);
}

} // verus!
