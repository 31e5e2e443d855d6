//! Lane-wise primitives, most of them taken from `fearless_simd`.
//!
//! The wrappers run on the scalar token of `fearless_simd`, which every target has. An instruction
//! set changes how fast a lane operation is, never what it returns.
use fearless_simd::{
    u32x16, u32x8, u64x8, u8x16, u8x32, Fallback, SimdBase, SimdFrom, SimdMask, SimdSplit,
};
use vstd::prelude::*;

verus! {

/// Bit `i` of `mask`.
pub open spec fn bit(mask: u64, i: int) -> bool {
    (mask >> (i as u64)) & 1 == 1
}

/// Bit `i` of `mask` is set exactly when lane `i` exists and equals `value`.
pub open spec fn marks_equal<T>(mask: u64, lanes: Seq<T>, value: T) -> bool {
    forall|i: int|
        0 <= i < 64 ==> (#[trigger] bit(mask, i) <==> (i < lanes.len() && lanes[i] == value))
}

/// Taking the lowest set bit out of `matches` leaves the others as they are.
pub proof fn lemma_clear_lowest(matches: u64, rest: u64, lane: u64)
    requires
        matches != 0,
        lane == vstd::std_specs::bits::u64_trailing_zeros(matches),
        rest == matches & ((matches - 1) as u64),
    ensures
        lane < 64,
        bit(matches, lane as int),
        forall|k: int| 0 <= k < lane ==> !#[trigger] bit(matches, k),
        forall|k: int| 0 <= k < 64 ==> (#[trigger] bit(rest, k) <==> bit(matches, k) && k != lane),
        rest < matches,
{
    vstd::std_specs::bits::axiom_u64_trailing_zeros(matches);
    assert forall|k: int| 0 <= k < lane implies !#[trigger] bit(matches, k) by {
        assert((matches >> (k as u64)) & 1 == 0);
    }
    let behind = ((64 - lane) as u64);
    assert forall|k: int| 0 <= k < 64 implies (#[trigger] bit(rest, k) <==> bit(matches, k) && k
        != lane) by {
        let j = k as u64;
        assert((rest >> j) & 1 == 1 <==> ((matches >> j) & 1 == 1 && j != lane)) by (bit_vector)
            requires
                matches != 0,
                (matches >> lane) & 1 == 1,
                lane < 64,
                behind == 64 - lane,
                matches << behind == 0,
                rest == matches & ((matches - 1) as u64),
                j < 64,
        ;
    }
    assert(rest < matches) by (bit_vector)
        requires
            matches != 0,
            rest == matches & ((matches - 1) as u64),
    ;
}

/// Compares sixteen bytes with one, as `u8x16::simd_eq` and `to_bitmask` of `fearless_simd` do: bit
/// `i` of the mask tells whether lane `i` is equal, and the bits above the lanes are clear.
#[verifier::external_body]
pub(crate) fn eq_mask_u8x16(lanes: &[u8], value: u8) -> (mask: u64)
    requires
        lanes@.len() == 16,
    ensures
        marks_equal(mask, lanes@, value),
{
    let simd = Fallback::new();
    u8x16::from_slice(simd, lanes).simd_eq(u8x16::splat(simd, value)).to_bitmask()
}

/// Compares thirty-two bytes with one, as `u8x32::simd_eq` and `to_bitmask` of `fearless_simd` do:
/// bit `i` of the mask tells whether lane `i` is equal, and the bits above the lanes are clear.
#[verifier::external_body]
pub(crate) fn eq_mask_u8x32(lanes: &[u8], value: u8) -> (mask: u64)
    requires
        lanes@.len() == 32,
    ensures
        marks_equal(mask, lanes@, value),
{
    let simd = Fallback::new();
    u8x32::from_slice(simd, lanes).simd_eq(u8x32::splat(simd, value)).to_bitmask()
}

/// Compares sixteen counts with one, as `u32x16::simd_eq` and `to_bitmask` of `fearless_simd` do: bit
/// `i` of the mask tells whether lane `i` is equal, and the bits above the lanes are clear.
#[verifier::external_body]
pub(crate) fn eq_mask_u32x16(lanes: &[u32], value: u32) -> (mask: u64)
    requires
        lanes@.len() == 16,
    ensures
        marks_equal(mask, lanes@, value),
{
    let simd = Fallback::new();
    u32x16::from_slice(simd, lanes).simd_eq(u32x16::splat(simd, value)).to_bitmask()
}

/// Loads sixteen counts and hands the lanes back, as `u32x16::from_slice` of `fearless_simd` and the
/// conversion to an array do.
#[verifier::external_body]
pub(crate) fn load_u32x16(lanes: &[u32]) -> (loaded: [u32; 16])
    requires
        lanes@.len() == 16,
    ensures
        loaded@ == lanes@,
{
    u32x16::from_slice(Fallback::new(), lanes).into()
}

/// Adds two vectors of sixteen counts lane by lane, as `+` on `u32x16` of `fearless_simd` does: each
/// lane wraps around at the width of its type.
#[verifier::external_body]
pub(crate) fn add_u32x16(left: &[u32], right: &[u32]) -> (sums: [u32; 16])
    requires
        left@.len() == 16,
        right@.len() == 16,
    ensures
        forall|i: int|
            0 <= i < 16 ==> #[trigger] sums@[i] == (left@[i] + right@[i]) % 0x1_0000_0000,
{
    let simd = Fallback::new();
    (u32x16::from_slice(simd, left) + u32x16::from_slice(simd, right)).into()
}

/// The smaller lane of each half, as `split` and `min` on `u32x8` of `fearless_simd` give it.
#[verifier::external_body]
fn min_halves_u32x8(v: [u32; 8]) -> (m: [u32; 4])
    ensures
        forall|i: int|
            0 <= i < 4 ==> #[trigger] m@[i] == if v@[i] <= v@[i + 4] { v@[i] } else { v@[i + 4] },
{
    let simd = Fallback::new();
    let (left, right) = u32x8::simd_from(simd, v).split();
    left.min(right).into()
}

/// Rotates eight lanes down by `SHIFT`, as `slide` on `u64x8` of `fearless_simd` does when a vector
/// is slid into itself.
#[verifier::external_body]
fn slide_u64x8<const SHIFT: usize>(v: [u64; 8]) -> (r: [u64; 8])
    requires
        SHIFT < 8,
    ensures
        forall|i: int| 0 <= i < 8 ==> #[trigger] r@[i] == v@[(i + SHIFT) % 8],
{
    let v = u64x8::simd_from(Fallback::new(), v);
    v.slide::<SHIFT>(v).into()
}

/// The smaller of two vectors lane by lane, as `min` on `u64x8` of `fearless_simd` gives it.
#[verifier::external_body]
fn min_u64x8(a: [u64; 8], b: [u64; 8]) -> (m: [u64; 8])
    ensures
        forall|i: int| 0 <= i < 8 ==> #[trigger] m@[i] == if a@[i] <= b@[i] { a@[i] } else { b@[i] },
{
    let simd = Fallback::new();
    u64x8::simd_from(simd, a).min(u64x8::simd_from(simd, b)).into()
}

/// The smaller of two counts.
fn min_u32(a: u32, b: u32) -> (m: u32)
    ensures
        m == if a <= b { a } else { b },
{
    if a <= b {
        a
    } else {
        b
    }
}

/// The smallest lane of `v`, folded in `log2(8)` steps.
pub fn min_lane_u32x8(v: [u32; 8]) -> (m: u32)
    ensures
        forall|i: int| 0 <= i < 8 ==> m <= #[trigger] v@[i],
        v@.contains(m),
{
    let q = min_halves_u32x8(v);
    let m = min_u32(min_u32(q[0], q[1]), min_u32(q[2], q[3]));
    proof {
        assert(q@[0] <= v@[0] && q@[0] <= v@[4]);
        assert(q@[1] <= v@[1] && q@[1] <= v@[5]);
        assert(q@[2] <= v@[2] && q@[2] <= v@[6]);
        assert(q@[3] <= v@[3] && q@[3] <= v@[7]);
        let i: int = if m == q@[0] {
            0
        } else if m == q@[1] {
            1
        } else if m == q@[2] {
            2
        } else {
            3
        };
        assert(v@[if v@[i] <= v@[i + 4] { i } else { i + 4 }] == m);
    }
    m
}

/// The smallest lane of `v`, folded in `log2(8)` steps.
pub fn min_lane_u64x8(v: [u64; 8]) -> (m: u64)
    ensures
        forall|i: int| 0 <= i < 8 ==> m <= #[trigger] v@[i],
        v@.contains(m),
{
    let a = slide_u64x8::<4>(v);
    let p = min_u64x8(v, a);
    let b = slide_u64x8::<2>(p);
    let q = min_u64x8(p, b);
    let c = slide_u64x8::<1>(q);
    let r = min_u64x8(q, c);
    proof {
        assert(r@[0] <= q@[0] && r@[0] <= c@[0] && c@[0] == q@[1]);
        assert(q@[0] <= p@[0] && q@[0] <= b@[0] && b@[0] == p@[2]);
        assert(q@[1] <= p@[1] && q@[1] <= b@[1] && b@[1] == p@[3]);
        assert(p@[0] <= v@[0] && p@[0] <= a@[0] && a@[0] == v@[4]);
        assert(p@[1] <= v@[1] && p@[1] <= a@[1] && a@[1] == v@[5]);
        assert(p@[2] <= v@[2] && p@[2] <= a@[2] && a@[2] == v@[6]);
        assert(p@[3] <= v@[3] && p@[3] <= a@[3] && a@[3] == v@[7]);
        let i: int = if r@[0] == q@[0] {
            0
        } else {
            1
        };
        let j: int = if q@[i] == p@[i] {
            i
        } else {
            i + 2
        };
        let k: int = if p@[j] == v@[j] {
            j
        } else {
            j + 4
        };
        assert(v@[k] == r@[0]);
    }
    r[0]
}

} // verus!
