//! Laws of what populations cost.
use crate::bit_cost::{
    accumulate_one_symbol, accumulate_symbol_costs, cost_of, depth_spread,
    kFourSymbolHistogramCost, kOneSymbolHistogramCost, kThreeSymbolHistogramCost,
    kTwoSymbolHistogramCost, octal_digits, populated, population_cost, scan, shannon_entropy,
    wrapping_total, zero_run_codes, BitsEntropy, BrotliPopulationCost, BrotliPopulationCostOfSum,
    DepthHistogram, Entropy, Own, PopulationCost, PopulationCostView, Sum, SymbolCharge,
};
use crate::histogram::Histogram;
use vstd::prelude::*;

verus! {

/// `positions` are the populated buckets of `values`, in order.
pub open spec fn are_populated(values: Seq<u32>, positions: Seq<int>) -> bool {
    &&& forall|i: int|
        0 <= i < positions.len() ==> 0 <= #[trigger] positions[i] < values.len() && values[positions[i]]
            > 0
    &&& forall|i: int, j: int|
        0 <= i < j < positions.len() ==> #[trigger] positions[i] < #[trigger] positions[j]
    &&& forall|p: int|
        0 <= p < values.len() && #[trigger] values[p] > 0 ==> positions.contains(p)
}

proof fn lemma_populated(values: Seq<u32>, positions: Seq<int>)
    requires
        are_populated(values, positions),
    ensures
        populated(values) == Seq::new(positions.len(), |i: int| values[positions[i]]),
        ({
            let charges = scan(values).charges;
            &&& charges.len() == positions.len()
            &&& scan(values).reps == values.len() - if positions.len() == 0 {
                0
            } else {
                positions.last() + 1
            }
            &&& values.len() <= u32::MAX ==> forall|i: int|
                0 <= i < charges.len() ==> (#[trigger] charges[i]).count == values[positions[i]]
                    && charges[i].empty_before == positions[i] - if i == 0 {
                    0
                } else {
                    positions[i - 1] + 1
                }
        }),
    decreases values.len(),
{
    reveal(Seq::filter);
    let all = Seq::new(positions.len(), |i: int| values[positions[i]]);
    if values.len() == 0 {
        if positions.len() > 0 {
            assert(0 <= positions[0] < values.len());
        }
        assert(populated(values) =~= all);
    } else {
        let last = values.len() - 1;
        let rest = values.drop_last();
        if values[last] > 0 {
            assert(positions.contains(last));
            let at = positions.index_of(last);
            if at < positions.len() - 1 {
                assert(positions[at] < positions[at + 1]);
            }
            assert(positions.last() == last);
            let before = positions.drop_last();
            assert forall|p: int| 0 <= p < rest.len() && #[trigger] rest[p] > 0 implies before.contains(
                p,
            ) by {
                assert(values[p] > 0);
                let i = positions.index_of(p);
                assert(before[i] == p);
            }
            assert forall|i: int| 0 <= i < before.len() implies 0 <= #[trigger] before[i] < rest.len()
                && rest[before[i]] > 0 by {
                assert(positions[i] < positions[positions.len() - 1]);
            }
            lemma_populated(rest, before);
            assert(populated(values) =~= all);
        } else {
            assert forall|i: int| 0 <= i < positions.len() implies 0 <= #[trigger] positions[i]
                < rest.len() && rest[positions[i]] > 0 by {}
            assert forall|p: int| 0 <= p < rest.len() && #[trigger] rest[p] > 0 implies positions.contains(
                p,
            ) by {
                assert(values[p] > 0);
            }
            lemma_populated(rest, positions);
            assert(populated(values) =~= all);
        }
    }
}

/// A population that has counted nothing, or has one symbol only, costs what a single symbol costs.
pub proof fn law_one_symbol(values: Seq<u32>, total: usize, positions: Seq<int>)
    requires
        are_populated(values, positions),
        total == 0 || positions.len() == 1,
    ensures
        cost_of(values, total) is OneSymbol,
        kOneSymbolHistogramCost == 12,
{
    lemma_populated(values, positions);
}

/// Two symbols cost a bit for each time that one of them was counted, and twenty bits besides.
pub proof fn law_two_symbols(values: Seq<u32>, total: usize, positions: Seq<int>)
    requires
        are_populated(values, positions),
        total > 0,
        positions.len() == 2,
    ensures
        cost_of(values, total) == (PopulationCostView::TwoSymbols { total_count: total }),
        kTwoSymbolHistogramCost == 20,
{
    lemma_populated(values, positions);
}

/// Three symbols cost what the best prefix code for them takes, and twenty-eight bits besides: one bit
/// for the most frequent, whichever bucket it is in, and two for the others. Sums that are too large for
/// a word lose what does not fit.
pub proof fn law_three_symbols(values: Seq<u32>, total: usize, positions: Seq<int>)
    requires
        are_populated(values, positions),
        total > 0,
        positions.len() == 3,
    ensures
        kThreeSymbolHistogramCost == 28,
        cost_of(values, total) matches PopulationCostView::ThreeSymbols { doubled, largest } && {
            let a = values[positions[0]];
            let b = values[positions[1]];
            let c = values[positions[2]];
            &&& doubled == (2 * (a + b + c)) % 0x1_0000_0000
            &&& largest == a || largest == b || largest == c
            &&& largest >= a && largest >= b && largest >= c
            &&& 2 * (a + b + c) <= u32::MAX ==> doubled - largest <= a + 2 * b + 2 * c && doubled
                - largest <= 2 * a + b + 2 * c && doubled - largest <= 2 * a + 2 * b + c
        },
{
    lemma_populated(values, positions);
}

/// `a` to `d` are the counts of the four populated buckets, the largest first.
pub open spec fn are_sorted_counts(counts: Seq<u32>, a: u32, b: u32, c: u32, d: u32) -> bool {
    &&& a >= b >= c >= d
    &&& counts.to_multiset() == seq![a, b, c, d].to_multiset()
}

/// Four symbols cost what the best prefix code for them takes, and thirty-seven bits besides: two bits
/// each, or one, two, three and three bits, the more frequent ones getting the shorter codes. Sums that are
/// too large for a word lose what does not fit.
pub proof fn law_four_symbols(
    values: Seq<u32>,
    total: usize,
    positions: Seq<int>,
    a: u32,
    b: u32,
    c: u32,
    d: u32,
)
    requires
        are_populated(values, positions),
        total > 0,
        positions.len() == 4,
        are_sorted_counts(Seq::new(4, |i: int| values[positions[i]]), a, b, c, d),
    ensures
        kFourSymbolHistogramCost == 37,
        cost_of(values, total) matches PopulationCostView::FourSymbols { tripled, doubled, largest }
            && {
            let cost = tripled + doubled - largest;
            let pair = (c + d) % 0x1_0000_0000;
            &&& 3 * (a + b + c + d) <= u32::MAX ==> {
                &&& cost == a + 2 * b + 3 * c + 3 * d || cost == 2 * (a + b + c + d)
                &&& cost <= a + 2 * b + 3 * c + 3 * d
                &&& cost <= 2 * (a + b + c + d)
            }
            &&& tripled == (3 * (c + d)) % 0x1_0000_0000
            &&& doubled == (2 * (a + b)) % 0x1_0000_0000
            &&& largest == if pair >= a {
                pair
            } else {
                a as int
            }
        },
{
    lemma_populated(values, positions);
    let counts = populated(values);
    let sorted = seq![a, b, c, d];
    let descending = |x: u32, y: u32| x >= y;
    assert(counts =~= Seq::new(4, |i: int| values[positions[i]]));
    counts.lemma_sort_by_ensures(descending);
    assert(vstd::relations::sorted_by(sorted, descending));
    vstd::seq_lib::lemma_sorted_unique(sorted, counts.sort_by(descending), descending);
}

/// Where more than four symbols are populated, each is charged once, in order: with its own count, and
/// with as many empty buckets as stand between it and the one before it.
pub proof fn law_many_symbols(values: Seq<u32>, total: usize, positions: Seq<int>)
    requires
        are_populated(values, positions),
        total > 0,
        positions.len() > 4 || positions.len() == 0,
        values.len() <= u32::MAX,
    ensures
        cost_of(values, total) matches PopulationCostView::ManySymbols { total_count, charges } && {
            &&& total_count == total
            &&& charges.len() == positions.len()
            &&& forall|i: int|
                0 <= i < charges.len() ==> (#[trigger] charges[i]).count == values[positions[i]]
                    && charges[i].empty_before == positions[i] - if i == 0 {
                    0
                } else {
                    positions[i - 1] + 1
                }
        },
{
    lemma_populated(values, positions);
}

/// A few symbols cost the same in whatever buckets they are, and in whatever order.
pub proof fn law_cost_of_permutation(values: Seq<u32>, others: Seq<u32>, total: usize)
    requires
        1 <= populated(values).len() <= 4,
        populated(values).to_multiset() == populated(others).to_multiset(),
    ensures
        cost_of(values, total) == cost_of(others, total),
{
    broadcast use vstd::seq_lib::group_to_multiset_ensures;

    let counts = populated(values);
    let same = populated(others);
    vstd::seq_lib::to_multiset_len(counts);
    vstd::seq_lib::to_multiset_len(same);
    let descending = |x: u32, y: u32| x >= y;
    if counts.len() == 3 {
        lemma_sum_and_largest(counts, same);
    }
    if counts.len() == 4 {
        counts.lemma_sort_by_ensures(descending);
        same.lemma_sort_by_ensures(descending);
        vstd::seq_lib::lemma_sorted_unique(
            counts.sort_by(descending),
            same.sort_by(descending),
            descending,
        );
    }
}

proof fn lemma_sum_and_largest(x: Seq<u32>, y: Seq<u32>)
    requires
        x.len() == 3,
        y.len() == 3,
        x.to_multiset() == y.to_multiset(),
    ensures
        x[0] + x[1] + x[2] == y[0] + y[1] + y[2],
        crate::bit_cost::larger(x[0], crate::bit_cost::larger(x[1], x[2]))
            == crate::bit_cost::larger(y[0], crate::bit_cost::larger(y[1], y[2])),
{
    let descending = |a: u32, b: u32| a >= b;
    x.lemma_sort_by_ensures(descending);
    y.lemma_sort_by_ensures(descending);
    vstd::seq_lib::lemma_sorted_unique(x.sort_by(descending), y.sort_by(descending), descending);
    let s = x.sort_by(descending);
    vstd::seq_lib::to_multiset_len(s);
    vstd::seq_lib::to_multiset_len(x);
    assert(descending(s[0], s[1]) && descending(s[1], s[2]));
    lemma_sorted_three(x, x.sort_by(descending));
    lemma_sorted_three(y, y.sort_by(descending));
}

proof fn lemma_sorted_three(x: Seq<u32>, s: Seq<u32>)
    requires
        x.len() == 3,
        s.len() == 3,
        x.to_multiset() == s.to_multiset(),
        s[0] >= s[1] >= s[2],
    ensures
        x[0] + x[1] + x[2] == s[0] + s[1] + s[2],
        s[0] >= x[0] && s[0] >= x[1] && s[0] >= x[2],
        s[0] == x[0] || s[0] == x[1] || s[0] == x[2],
{
    broadcast use {vstd::seq_lib::group_to_multiset_ensures, vstd::multiset::group_multiset_axioms};

    assert(x =~= seq![x[0], x[1], x[2]]);
    assert(s =~= seq![s[0], s[1], s[2]]);
    let m = vstd::multiset::Multiset::empty().insert(x[0]).insert(x[1]).insert(x[2]);
    let k = vstd::multiset::Multiset::empty().insert(s[0]).insert(s[1]).insert(s[2]);
    assert(Seq::<u32>::empty().push(x[0]).push(x[1]).push(x[2]) =~= x);
    assert(Seq::<u32>::empty().push(s[0]).push(s[1]).push(s[2]) =~= s);
    assert(x.to_multiset() =~= m);
    assert(s.to_multiset() =~= k);
    assert(m.count(x[0]) == k.count(x[0]));
    assert(m.count(x[1]) == k.count(x[1]));
    assert(m.count(x[2]) == k.count(x[2]));
    assert(m.count(s[0]) == k.count(s[0]));
    assert(m.count(s[1]) == k.count(s[1]));
    assert(m.count(s[2]) == k.count(s[2]));
}

/// Charging a row of buckets charges each populated one, in order: with its own count, and with as many
/// empty buckets as stand between it and the one before it. The empty ones at the end leave no trace.
pub proof fn law_charges(buckets: &[u32], charges: Vec<SymbolCharge>, positions: Seq<int>)
    requires
        buckets@.len() <= u32::MAX,
        are_populated(buckets@, positions),
        call_ensures(accumulate_symbol_costs::<Own<'_>>, (&Own(buckets),), charges),
    ensures
        charges@.len() == positions.len(),
        forall|i: int|
            0 <= i < positions.len() ==> (#[trigger] charges@[i]).count == buckets@[positions[i]]
                && charges@[i].empty_before == positions[i] - if i == 0 {
                0
            } else {
                positions[i - 1] + 1
            },
{
    lemma_populated(buckets@, positions);
}

/// Charging two rows of buckets together charges the buckets that hold both.
pub proof fn law_charges_of_sum(
    a: &[u32],
    b: &[u32],
    charges: Vec<SymbolCharge>,
    same: Vec<SymbolCharge>,
    sum: &[u32],
)
    requires
        a@.len() == b@.len() == sum@.len(),
        a@.len() <= u32::MAX,
        forall|i: int| 0 <= i < sum@.len() ==> #[trigger] sum@[i] == (a@[i] + b@[i])
            % 0x1_0000_0000,
        call_ensures(accumulate_symbol_costs::<Sum<'_>>, (&Sum(a, b),), charges),
        call_ensures(accumulate_symbol_costs::<Own<'_>>, (&Own(sum),), same),
    ensures
        charges@ == same@,
{
    assert(crate::histogram::sum_of(a@, b@) =~= sum@);
}

/// Charging one bucket charges it with the run before it, and starts a new run.
pub proof fn law_charge_one(histo: u32, reps: &mut u32, charges: &mut Vec<SymbolCharge>)
    requires
        call_ensures(accumulate_one_symbol, (histo, reps, charges), ()),
    ensures
        *final(reps) == 0,
        final(charges)@.len() == old(charges)@.len() + 1,
        final(charges)@.last().count == histo,
        final(charges)@.last().empty_before == *old(reps),
        forall|i: int|
            0 <= i < old(charges)@.len() ==> #[trigger] final(charges)@[i] == old(charges)@[i],
{
}

/// The cost of a row of buckets is that of its values, whether they are there or are sums.
pub proof fn law_bucket_costs(
    a: &[u32],
    b: &[u32],
    sum: Seq<u32>,
    total: usize,
    own: PopulationCost,
    both: PopulationCost,
)
    requires
        a@.len() == b@.len() == sum.len(),
        a@.len() <= u32::MAX,
        forall|i: int| 0 <= i < sum.len() ==> #[trigger] sum[i] == (a@[i] + b@[i])
            % 0x1_0000_0000,
        call_ensures(population_cost::<Own<'_>>, (Own(a), total), own),
        call_ensures(population_cost::<Sum<'_>>, (Sum(a, b), total), both),
    ensures
        own@ == cost_of(a@, total),
        both@ == cost_of(sum, total),
{
    assert(crate::histogram::sum_of(a@, b@) =~= sum);
}

/// The cost of a histogram is that of its buckets and its total.
pub proof fn law_histogram_cost(histogram: Histogram, cost: PopulationCost)
    requires
        histogram.data_@.len() <= u32::MAX,
        call_ensures(BrotliPopulationCost, (&histogram,), cost),
    ensures
        cost@ == cost_of(histogram.data_@, histogram.total_count_),
{
}

/// The cost of two histograms together is that of the histogram whose buckets hold both.
pub proof fn law_histogram_cost_of_sum(
    a: Histogram,
    b: Histogram,
    cost: PopulationCost,
    sum: Seq<u32>,
)
    requires
        a.data_@.len() == b.data_@.len() == sum.len(),
        a.data_@.len() <= u32::MAX,
        a.total_count_ + b.total_count_ <= usize::MAX,
        forall|i: int| 0 <= i < sum.len() ==> #[trigger] sum[i] == (a.data_@[i] + b.data_@[i])
            % 0x1_0000_0000,
        call_ensures(BrotliPopulationCostOfSum, (&a, &b), cost),
    ensures
        cost@ == cost_of(sum, (a.total_count_ + b.total_count_) as usize),
{
    assert(crate::histogram::sum_of(a.data_@, b.data_@) =~= sum);
}

/// A run of three or more empty buckets takes one repeat code for each octal digit of two less than its
/// length; a shorter run takes none.
pub proof fn law_run_codes(reps: u32, codes: u32)
    requires
        call_ensures(zero_run_codes, (reps,), codes),
    ensures
        reps < 3 ==> codes == 0,
        reps >= 3 ==> codes > 0 && vstd::arithmetic::power::pow(8, (codes - 1) as nat) <= reps - 2
            < vstd::arithmetic::power::pow(8, codes as nat),
{
    if reps >= 3 {
        lemma_octal_digits((reps - 2) as nat);
    }
}

proof fn lemma_octal_digits(n: nat)
    requires
        n > 0,
    ensures
        octal_digits(n) > 0,
        vstd::arithmetic::power::pow(8, (octal_digits(n) - 1) as nat) <= n,
        n < vstd::arithmetic::power::pow(8, octal_digits(n)),
    decreases n,
{
    reveal(vstd::arithmetic::power::pow);
    if n < 8 {
        assert(n / 8 == 0);
        reveal_with_fuel(octal_digits, 2);
        vstd::arithmetic::power::lemma_pow0(8);
        vstd::arithmetic::power::lemma_pow1(8);
        assert(octal_digits(n) == 1);
    } else {
        lemma_octal_digits(n / 8);
        let k = octal_digits(n / 8);
        vstd::arithmetic::power::lemma_pow_adds(8, 1, k);
        vstd::arithmetic::power::lemma_pow_adds(8, 1, (k - 1) as nat);
        vstd::arithmetic::power::lemma_pow1(8);
    }
}

/// How many of the depths are `d`, counting all from fifteen on as fifteen.
pub open spec fn at_depth(depths: Seq<usize>, d: int) -> nat
    decreases depths.len(),
{
    if depths.len() == 0 {
        0
    } else {
        at_depth(depths.drop_last(), d) + if (if depths.last() < 15 {
            depths.last() as int
        } else {
            15
        }) == d {
            1nat
        } else {
            0
        }
    }
}

/// How many empty buckets stand before symbols in runs of one or two.
pub open spec fn spelled_out(charges: Seq<SymbolCharge>) -> nat
    decreases charges.len(),
{
    if charges.len() == 0 {
        0
    } else {
        spelled_out(charges.drop_last()) + if charges.last().empty_before < 3 {
            charges.last().empty_before as nat
        } else {
            0
        }
    }
}

/// How many repeat codes the longer runs take.
pub open spec fn repeated(charges: Seq<SymbolCharge>) -> nat
    decreases charges.len(),
{
    if charges.len() == 0 {
        0
    } else {
        repeated(charges.drop_last()) + if charges.last().empty_before < 3 {
            0
        } else {
            octal_digits((charges.last().empty_before - 2) as nat)
        }
    }
}

proof fn lemma_spread(charges: Seq<SymbolCharge>, depths: Seq<usize>)
    requires
        charges.len() == depths.len(),
    ensures
        ({
            let spread = depth_spread(charges, depths);
            &&& spread.depth_histo.len() == 18
            &&& forall|d: int|
                1 <= d <= 15 ==> #[trigger] spread.depth_histo[d] == at_depth(depths, d)
            &&& spread.depth_histo[0] == at_depth(depths, 0) + spelled_out(charges)
            &&& spread.depth_histo[16] == 0
            &&& spread.depth_histo[17] == repeated(charges)
            &&& 1 <= spread.max_depth <= 15
            &&& forall|i: int|
                0 <= i < depths.len() ==> spread.max_depth >= #[trigger] depths[i]
                    || spread.max_depth == 15
            &&& spread.max_depth > 1 ==> exists|i: int|
                0 <= i < depths.len() && #[trigger] depths[i] >= spread.max_depth
        }),
    decreases charges.len(),
{
    if charges.len() > 0 {
        let c = charges.drop_last();
        let d = depths.drop_last();
        lemma_spread(c, d);
        let before = depth_spread(c, d);
        let spread = depth_spread(charges, depths);
        assert forall|i: int| 0 <= i < depths.len() implies spread.max_depth >= #[trigger] depths[i]
            || spread.max_depth == 15 by {
            if i < d.len() {
                assert(d[i] == depths[i]);
            }
        }
        if spread.max_depth > 1 {
            if spread.max_depth > before.max_depth {
                assert(depths[depths.len() - 1] >= spread.max_depth);
            } else {
                let i = choose|i: int| 0 <= i < d.len() && #[trigger] d[i] >= before.max_depth;
                assert(depths[i] >= spread.max_depth);
            }
        }
    }
}

/// The spread of the code lengths counts every symbol once, at its depth or at fifteen; every bucket of
/// a short empty run once, at zero; and the repeat codes of the longer runs, at seventeen. The deepest is
/// the largest of the depths, but no less than one and no more than fifteen.
pub proof fn law_depth_spread(charges: &[SymbolCharge], depths: &[usize], spread: DepthHistogram)
    requires
        charges@.len() == depths@.len(),
        call_ensures(DepthHistogram::new, (charges, depths), spread),
    ensures
        forall|d: int|
            1 <= d <= 15 ==> #[trigger] spread.depth_histo@[d] == at_depth(depths@, d),
        spread.depth_histo@[0] == at_depth(depths@, 0) + spelled_out(charges@),
        spread.depth_histo@[16] == 0,
        spread.depth_histo@[17] == repeated(charges@),
        1 <= spread.max_depth <= 15,
        forall|i: int|
            0 <= i < depths@.len() ==> spread.max_depth >= #[trigger] depths@[i] || spread.max_depth
                == 15,
        spread.max_depth > 1 ==> exists|i: int|
            0 <= i < depths@.len() && #[trigger] depths@[i] >= spread.max_depth,
{
    lemma_spread(charges@, depths@);
    assert forall|d: int| 0 <= d < 18 implies #[trigger] spread.depth_histo@[d]
        == spread@.depth_histo[d] by {}
}

/// Describing the code lengths takes eighteen bits, and two for each bit of the deepest.
pub proof fn law_header_bits(spread: DepthHistogram, bits: usize)
    requires
        call_ensures(DepthHistogram::header_bits, (&spread,), bits),
    ensures
        bits == (18 + 2 * spread.max_depth) % (usize::MAX + 1),
        spread.max_depth <= 15 ==> bits == 18 + 2 * spread.max_depth,
{
    vstd::arithmetic::div_mod::lemma_add_mod_noop_right(
        18,
        2 * spread.max_depth,
        usize::MAX + 1,
    );
    if spread.max_depth <= 15 {
        vstd::arithmetic::div_mod::lemma_small_mod(
            (18 + 2 * spread.max_depth) as nat,
            (usize::MAX + 1) as nat,
        );
    }
}

/// The sum of a row of counts.
pub open spec fn sum(counts: Seq<u32>) -> nat
    decreases counts.len(),
{
    if counts.len() == 0 {
        0
    } else {
        sum(counts.drop_last()) + counts.last() as nat
    }
}

proof fn lemma_wrapping_total(counts: Seq<u32>)
    ensures
        wrapping_total(counts) == sum(counts) % (usize::MAX + 1) as nat,
    decreases counts.len(),
{
    let range = usize::MAX + 1;
    if counts.len() > 0 {
        let before = sum(counts.drop_last()) as int;
        let last = counts.last() as int;
        lemma_wrapping_total(counts.drop_last());
        vstd::arithmetic::div_mod::lemma_add_mod_noop_right(last, before, range);
        vstd::arithmetic::div_mod::lemma_mod_bound(before, range);
        let total = last + before % range;
        if total < range {
            vstd::arithmetic::div_mod::lemma_small_mod(total as nat, range as nat);
        } else {
            vstd::arithmetic::div_mod::lemma_small_mod((total - range) as nat, range as nat);
            vstd::arithmetic::div_mod::lemma_mod_add_multiples_vanish(total - range, range);
        }
    } else {
        vstd::arithmetic::div_mod::lemma_small_mod(0, range as nat);
    }
}

/// An entropy is taken over the counts that were asked for, each a term of its own, with their sum; and
/// it is at least as many bits as symbols were counted.
pub proof fn law_entropy(population: &[u32], size: usize, entropy: Entropy<'_>)
    requires
        size <= population@.len(),
        call_ensures(BitsEntropy, (population, size), entropy),
    ensures
        entropy.terms@.len() == size,
        forall|i: int| 0 <= i < size ==> #[trigger] entropy.terms@[i] == population@[i],
        entropy.sum == sum(population@.take(size as int)) % (usize::MAX + 1) as nat,
        entropy.at_least == entropy.sum,
{
    lemma_wrapping_total(population@.take(size as int));
}

/// The counts that enter an entropy are the ones that were asked for, and their sum goes with them.
pub proof fn law_entropy_terms(population: &[u32], size: usize, entropy: (&[u32], usize))
    requires
        size <= population@.len(),
        call_ensures(shannon_entropy, (population, size), entropy),
    ensures
        entropy.0@ == population@.take(size as int),
        entropy.1 == sum(population@.take(size as int)) % (usize::MAX + 1) as nat,
{
    lemma_wrapping_total(population@.take(size as int));
}

/// Of no counts at all, asked for one, there is nothing to take an entropy of.
pub proof fn law_entropy_of_none(
    population: &[u32],
    terms: (&[u32], usize),
    entropy: Entropy<'_>,
)
    requires
        population@.len() == 0,
        call_ensures(shannon_entropy, (population, 1usize), terms),
        call_ensures(BitsEntropy, (population, 1usize), entropy),
    ensures
        terms.0@.len() == 0 && terms.1 == 0,
        entropy.terms@.len() == 0 && entropy.sum == 0 && entropy.at_least == 0,
{
}

/// The entropy of the code lengths is that of all eighteen counts.
pub proof fn law_depth_entropy(spread: DepthHistogram, entropy: Entropy<'_>)
    requires
        call_ensures(DepthHistogram::entropy, (&spread,), entropy),
    ensures
        entropy.terms@ == spread.depth_histo@,
        entropy.sum == sum(spread.depth_histo@) % (usize::MAX + 1) as nat,
        entropy.at_least == entropy.sum,
{
    lemma_wrapping_total(spread.depth_histo@);
}

} // verus!
