use simd_brotli::cost_key::{cost_key32, cost_key64};
use simd_brotli::vectorization::{min_lane_u32x8, min_lane_u64x8};

#[test]
fn min_lane_32_finds_every_lane() {
    for lane in 0..8 {
        let mut floats = [10.0f32; 8];
        floats[lane] = -1.0;
        let keys = floats.map(|cost| cost_key32(cost.to_bits()));
        assert_eq!(min_lane_u64x8(keys), cost_key32((-1.0f32).to_bits()));

        let mut integers = [u32::MAX; 8];
        integers[lane] = 1;
        assert_eq!(min_lane_u32x8(integers), 1);
    }
}

#[test]
fn min_lane_64_finds_every_lane() {
    for lane in 0..8 {
        let mut floats = [10.0f64; 8];
        floats[lane] = -1.0;
        let keys = floats.map(|cost| cost_key64(cost.to_bits()));
        assert_eq!(min_lane_u64x8(keys), cost_key64((-1.0f64).to_bits()));

        let mut integers = [u64::MAX; 8];
        integers[lane] = 1;
        assert_eq!(min_lane_u64x8(integers), 1);
    }
}

#[test]
fn min_lane_is_not_the_first_lane() {
    assert_eq!(min_lane_u32x8([9, 8, 7, 6, 5, 4, 3, 2]), 2);
    assert_eq!(min_lane_u64x8([9, 8, 7, 6, 1, 4, 3, 2]), 1);
    assert_eq!(min_lane_u64x8([9, 8, 1, 6, 5, 4, 3, 2]), 1);
    assert_eq!(min_lane_u64x8([9, 1, 7, 6, 5, 4, 3, 2]), 1);
}

#[test]
fn cost_keys_keep_the_order() {
    let singles = [f32::NEG_INFINITY, -1e30, -2.5, -1.0, -1e-40, 0.0, 1e-40, 0.5, 1.0, 28.1, 1e38];
    for pair in singles.windows(2) {
        assert!(cost_key32(pair[0].to_bits()) < cost_key32(pair[1].to_bits()));
    }
    let doubles = [f64::NEG_INFINITY, -1e300, -2.5, -1.0, 0.0, 0.5, 1.0, 28.1, 1e300];
    for pair in doubles.windows(2) {
        assert!(cost_key64(pair[0].to_bits()) < cost_key64(pair[1].to_bits()));
    }
}

#[test]
fn both_zeros_have_one_key() {
    assert_eq!(cost_key32(0.0f32.to_bits()), cost_key32((-0.0f32).to_bits()));
    assert_eq!(cost_key64(0.0f64.to_bits()), cost_key64((-0.0f64).to_bits()));
    assert_eq!(cost_key32(0.0f32.to_bits()), 0x8000_0000);
}
