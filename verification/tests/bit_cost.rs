use simd_brotli::bit_cost::{
    accumulate_one_symbol, accumulate_symbol_costs, population_cost, zero_run_codes, BitsEntropy,
    BrotliPopulationCost, BrotliPopulationCostOfSum, DepthHistogram, Own, PopulationCost, Sum,
    SymbolCharge,
};
use simd_brotli::histogram::{
    Histogram, HistogramAddHistogram, HistogramAddItem, HistogramAddVector, HistogramClear,
};

fn histogram(data: Vec<u32>) -> Histogram {
    let total_count_ = data.iter().map(|&n| n as usize).sum();
    Histogram { data_: data, total_count_ }
}

/// The populated buckets with the runs of empty ones before them, one bucket at a time.
fn scan(data: &[u32]) -> Vec<SymbolCharge> {
    let mut charges = Vec::new();
    let mut empty_before = 0;
    for &count in data {
        if count == 0 {
            empty_before += 1;
        } else {
            charges.push(SymbolCharge { empty_before, count });
            empty_before = 0;
        }
    }
    charges
}

fn charges(cost: PopulationCost) -> Vec<SymbolCharge> {
    match cost {
        PopulationCost::ManySymbols { charges, .. } => charges,
        other => panic!("{:?}", other),
    }
}

#[test]
fn an_empty_histogram_costs_like_one_symbol() {
    assert!(matches!(BrotliPopulationCost(&histogram(vec![0; 32])), PopulationCost::OneSymbol));
    assert!(matches!(
        BrotliPopulationCost(&histogram(vec![0, 0, 7, 0])),
        PopulationCost::OneSymbol
    ));
    // What counts is the total, not the buckets.
    let odd = Histogram { data_: vec![1, 2, 3], total_count_: 0 };
    assert!(matches!(BrotliPopulationCost(&odd), PopulationCost::OneSymbol));
}

#[test]
fn two_symbols_cost_a_bit_each() {
    assert!(matches!(
        BrotliPopulationCost(&histogram(vec![3, 0, 9])),
        PopulationCost::TwoSymbols { total_count: 12 }
    ));
}

#[test]
fn three_symbols_cost_two_bits_less_the_largest() {
    assert!(matches!(
        BrotliPopulationCost(&histogram(vec![3, 0, 9, 5])),
        PopulationCost::ThreeSymbols { doubled: 34, largest: 9 }
    ));
}

#[test]
fn four_symbols_are_sorted_first() {
    for data in [vec![1, 8, 2, 4], vec![8, 4, 2, 1], vec![1, 2, 4, 8], vec![4, 0, 1, 8, 2]] {
        assert!(matches!(
            BrotliPopulationCost(&histogram(data)),
            PopulationCost::FourSymbols { tripled: 9, doubled: 24, largest: 8 }
        ));
    }
    assert!(matches!(
        BrotliPopulationCost(&histogram(vec![5, 5, 5, 5])),
        PopulationCost::FourSymbols { tripled: 30, doubled: 20, largest: 10 }
    ));
}

#[test]
fn many_symbols_are_charged_in_order() {
    for len in [5usize, 16, 17, 31, 32, 48, 100, 256] {
        for period in [1usize, 2, 3, 5, 9] {
            let data: Vec<u32> =
                (0..len).map(|i| if i % period == 0 { i as u32 + 1 } else { 0 }).collect();
            if data.iter().filter(|&&n| n != 0).count() > 4 {
                let expected = scan(&data);
                let cost = BrotliPopulationCost(&histogram(data));
                assert_eq!(charges(cost), expected);
            }
        }
    }
}

#[test]
fn empty_full_and_mixed_chunks_are_charged_alike() {
    let mut data = vec![0u32; 80];
    for i in 16..32 {
        data[i] = 2;
    }
    data[33] = 1;
    data[47] = 3;
    data[70] = 4;
    let expected = scan(&data);
    assert_eq!(expected.len(), 19);
    assert_eq!(expected[0], SymbolCharge { empty_before: 16, count: 2 });
    assert_eq!(expected[18], SymbolCharge { empty_before: 22, count: 4 });
    assert_eq!(charges(BrotliPopulationCost(&histogram(data))), expected);
}

#[test]
fn what_follows_the_last_symbol_costs_nothing() {
    let short = vec![1, 0, 2, 3, 0, 0, 0, 4, 5];
    let mut long = short.clone();
    long.resize(64, 0);
    assert_eq!(
        charges(BrotliPopulationCost(&histogram(short))),
        charges(BrotliPopulationCost(&histogram(long)))
    );
}

#[test]
fn what_follows_the_last_symbol_costs_nothing_whatever_the_kind() {
    for short in [vec![], vec![7], vec![0, 7, 8], vec![1, 2, 3], vec![4, 3, 2, 1], vec![1; 17]] {
        let total = short.iter().map(|&n| n as usize).sum();
        for extra in [1, 15, 16, 33] {
            let mut long = short.clone();
            long.resize(short.len() + extra, 0);
            assert_eq!(
                format!("{:?}", population_cost(Own(&short), total)),
                format!("{:?}", population_cost(Own(&long), total))
            );
        }
    }
}

#[test]
fn chunks_are_charged_as_single_buckets_are() {
    for n in 0..70u32 {
        let data: Vec<u32> = (0..n).map(|i| if i * i % 5 < 2 { 0 } else { i }).collect();
        assert_eq!(accumulate_symbol_costs(&Own(&data)), scan(&data));
        let halves: Vec<u32> = data.iter().map(|&x| x / 2).collect();
        let rests: Vec<u32> = data.iter().map(|&x| x - x / 2).collect();
        assert_eq!(accumulate_symbol_costs(&Sum(&halves, &rests)), scan(&data));
    }
    let mut charges = Vec::new();
    let mut reps = 3;
    accumulate_one_symbol(9, &mut reps, &mut charges);
    assert_eq!((reps, charges), (0, vec![SymbolCharge { empty_before: 3, count: 9 }]));
}

#[test]
fn the_cost_of_a_sum_is_that_of_the_added_histograms() {
    let a: Vec<u32> = (0..50u32).map(|i| if i % 3 == 0 { i + 1 } else { 0 }).collect();
    let b: Vec<u32> = (0..50u32).map(|i| if i % 7 == 0 { 2 * i + 1 } else { 0 }).collect();
    let (a, b) = (histogram(a), histogram(b));
    let mut sum = a.duplicate();
    HistogramAddHistogram(&mut sum, &b);
    assert_eq!(sum.total_count_, a.total_count_ + b.total_count_);
    assert_eq!(
        charges(BrotliPopulationCostOfSum(&a, &b)),
        charges(BrotliPopulationCost(&sum))
    );
    assert_eq!(charges(BrotliPopulationCost(&sum)), scan(&sum.data_));
}

#[test]
fn sums_wrap_around() {
    let mut left = vec![0u32; 16];
    let mut right = vec![0u32; 16];
    for i in 0..6 {
        left[i] = u32::MAX;
        right[i] = 2;
    }
    let a = Histogram { data_: left, total_count_: 1 };
    let b = Histogram { data_: right, total_count_: 1 };
    for charge in charges(BrotliPopulationCostOfSum(&a, &b)) {
        assert_eq!(charge, SymbolCharge { empty_before: 0, count: 1 });
    }
}

#[test]
fn runs_of_empty_buckets() {
    let expected = [0, 0, 0, 1, 1, 1, 1, 1, 1, 1, 2, 2];
    for (reps, &codes) in expected.iter().enumerate() {
        assert_eq!(zero_run_codes(reps as u32), codes);
    }
    assert_eq!(zero_run_codes(65), 2);
    assert_eq!(zero_run_codes(66), 3);
    assert_eq!(zero_run_codes(u32::MAX), 11);
}

#[test]
fn depths_spread() {
    let charges = [
        SymbolCharge { empty_before: 2, count: 1 },
        SymbolCharge { empty_before: 0, count: 5 },
        SymbolCharge { empty_before: 10, count: 5 },
        SymbolCharge { empty_before: 1, count: 9 },
    ];
    let spread = DepthHistogram::new(&charges, &[3, 1, 40, 3]);
    let mut expected = [0u32; 18];
    expected[0] = 3;
    expected[1] = 1;
    expected[3] = 2;
    expected[15] = 1;
    expected[17] = 2;
    assert_eq!(spread.depth_histo, expected);
    assert_eq!(spread.max_depth, 15);
    assert_eq!(spread.header_bits(), 48);
    let entropy = spread.entropy();
    assert_eq!(entropy.terms, &expected[..]);
    assert_eq!(entropy.sum, 9);
}

#[test]
fn the_least_depth_is_one() {
    let spread = DepthHistogram::new(&[], &[]);
    assert_eq!(spread.max_depth, 1);
    assert_eq!(spread.header_bits(), 20);
    let spread = DepthHistogram::new(&[SymbolCharge { empty_before: 0, count: 1 }], &[0]);
    assert_eq!(spread.max_depth, 1);
    assert_eq!(spread.depth_histo[0], 1);
}

#[test]
fn entropy_takes_the_first_counts() {
    let entropy = BitsEntropy(&[1, 2, 3, 4, 5], 3);
    assert_eq!(entropy.terms, &[1, 2, 3]);
    assert_eq!((entropy.sum, entropy.at_least), (6, 6));
    let entropy = BitsEntropy(&[1, 2, 3, 4, 5], 4);
    assert_eq!(entropy.terms, &[1, 2, 3, 4]);
    assert_eq!(BitsEntropy(&[], 0).sum, 0);
    assert_eq!(BitsEntropy(&[], 1).terms, &[] as &[u32]);
}

#[test]
fn histograms_count() {
    let mut histogram = Histogram::new(8);
    HistogramAddVector(&mut histogram, &[1u8, 2, 1, 7]);
    HistogramAddVector(&mut histogram, &[3u16]);
    HistogramAddItem(&mut histogram, 2);
    assert_eq!(histogram.data_, vec![0, 2, 2, 1, 0, 0, 0, 1]);
    assert_eq!(histogram.total_count_, 6);
    HistogramClear(&mut histogram);
    assert_eq!(histogram.data_, vec![0; 8]);
    assert_eq!(histogram.total_count_, 0);
}
