//! What it costs to encode a population of symbols.
//!
//! A cost is a sum of logarithms. This module works out, in integers, what is to be summed and in
//! which order: which symbols are charged, how the runs of empty buckets between them are coded, and
//! how the depths of the symbols spread. Whoever evaluates a [`PopulationCost`] adds the logarithms.
use crate::histogram::Histogram;
use crate::vectorization::{add_u32x16, bit, eq_mask_u32x16, load_u32x16};
use vstd::prelude::*;

verus! {

/// The code length code that stands for a run of empty buckets.
pub const BROTLI_REPEAT_ZERO_CODE_LENGTH: usize = 17;

/// How many code length codes there are.
pub const BROTLI_CODE_LENGTH_CODES: usize = 18;

/// The deepest code that a symbol can get.
pub const MAX_SYMBOL_DEPTH: usize = 15;

/// The cost of a histogram with a single symbol, in bits.
pub const kOneSymbolHistogramCost: u32 = 12;

/// What a histogram with two symbols costs besides its symbols.
pub const kTwoSymbolHistogramCost: u32 = 20;

/// What a histogram with three symbols costs besides its symbols.
pub const kThreeSymbolHistogramCost: u32 = 28;

/// What a histogram with four symbols costs besides its symbols.
pub const kFourSymbolHistogramCost: u32 = 37;

/// The wrapping sum of a row of counts.
pub open spec fn wrapping_total(population: Seq<u32>) -> usize
    decreases population.len(),
{
    if population.len() == 0 {
        0
    } else {
        wrapping_total(population.drop_last()).wrapping_add(population.last() as usize)
    }
}

/// The terms of an entropy. With `n` standing for `sum`, the entropy is `n * log2(n)`, or nothing
/// where `n` is zero, less `p * log2(p)` for each `p` of `terms` in order; it counts as at least
/// `at_least`.
pub struct Entropy<'a> {
    pub terms: &'a [u32],
    pub sum: usize,
    pub at_least: usize,
}

/// Which counts enter the entropy of the first `size` counts of `population`, and their sum.
pub fn shannon_entropy(population: &[u32], size: usize) -> (entropy: (&[u32], usize))
    requires
        size <= population@.len() || (population@.len() == 0 && size == 1),
    ensures
        entropy.0@ == population@.take(if size <= population@.len() { size as int } else { 0 }),
        entropy.1 == wrapping_total(entropy.0@),
{
    let end: usize = if size <= population.len() { size } else { 0 };
    let terms = &population[0..end];
    let mut sum: usize = 0;
    let mut i: usize = 0;
    assert(terms@.take(0) =~= Seq::empty());
    while i < terms.len()
        invariant
            i <= terms@.len(),
            sum == wrapping_total(terms@.take(i as int)),
        decreases terms@.len() - i,
    {
        sum = sum.wrapping_add(terms[i] as usize);
        assert(terms@.take(i + 1).drop_last() =~= terms@.take(i as int));
        i += 1;
    }
    assert(terms@.take(i as int) =~= terms@);
    (terms, sum)
}

/// The entropy of the first `size` counts of `population`: no fewer bits than there are symbols.
pub fn BitsEntropy(population: &[u32], size: usize) -> (entropy: Entropy<'_>)
    requires
        size <= population@.len() || (population@.len() == 0 && size == 1),
    ensures
        entropy.terms@ == population@.take(if size <= population@.len() { size as int } else { 0 }),
        entropy.sum == wrapping_total(entropy.terms@),
        entropy.at_least == entropy.sum,
{
    let (terms, sum) = shannon_entropy(population, size);
    Entropy { terms, sum, at_least: sum }
}

/// One populated bucket and how many empty buckets stand right before it.
#[derive(Clone, Copy, PartialEq, Eq, Debug, Structural)]
pub struct SymbolCharge {
    pub empty_before: u32,
    pub count: u32,
}

/// The number of octal digits of `n`, none for zero.
pub open spec fn octal_digits(n: nat) -> nat
    decreases n,
{
    if n == 0 {
        0
    } else {
        1 + octal_digits(n / 8)
    }
}

/// How many repeat codes a run of empty buckets takes. Runs of one or two are spelled out.
pub open spec fn run_codes(reps: nat) -> nat {
    if reps < 3 {
        0
    } else {
        octal_digits((reps - 2) as nat)
    }
}

/// How many repeat codes, of three bits each, a run of `reps` empty buckets takes.
pub fn zero_run_codes(reps: u32) -> (codes: u32)
    ensures
        codes == run_codes(reps as nat),
        codes <= 11,
{
    if reps < 3 {
        return 0;
    }
    let mut remaining: u32 = reps - 2;
    let mut codes: u32 = 0;
    let ghost mut limit: nat = 11;
    assert(vstd::arithmetic::power::pow(8, 11) == 0x2_0000_0000) by {
        reveal(vstd::arithmetic::power::pow);
        reveal_with_fuel(vstd::arithmetic::power::pow, 12);
    }
    while remaining > 0
        invariant
            codes + octal_digits(remaining as nat) == run_codes(reps as nat),
            codes + limit == 11,
            remaining < vstd::arithmetic::power::pow(8, limit),
        decreases remaining,
    {
        proof {
            if limit == 0 {
                vstd::arithmetic::power::lemma_pow0(8);
            }
            vstd::arithmetic::power::lemma_pow_adds(8, 1, (limit - 1) as nat);
            vstd::arithmetic::power::lemma_pow1(8);
            limit = (limit - 1) as nat;
            assert(remaining >> 3 == remaining / 8) by (bit_vector);
        }
        codes += 1;
        remaining = remaining >> 3;
    }
    codes
}

/// What a scan of a row of buckets, one at a time, has seen: the populated buckets with the empty
/// runs before them, and how many empty buckets came last.
pub struct Scan {
    pub charges: Seq<SymbolCharge>,
    pub reps: nat,
}

/// Scans `buckets` one at a time.
pub open spec fn scan(buckets: Seq<u32>) -> Scan
    decreases buckets.len(),
{
    if buckets.len() == 0 {
        Scan { charges: Seq::empty(), reps: 0 }
    } else {
        let before = scan(buckets.drop_last());
        if buckets.last() == 0 {
            Scan { charges: before.charges, reps: before.reps + 1 }
        } else {
            Scan {
                charges: before.charges.push(
                    SymbolCharge { empty_before: before.reps as u32, count: buckets.last() },
                ),
                reps: 0,
            }
        }
    }
}

/// How many buckets the charges stand for.
pub open spec fn span(charges: Seq<SymbolCharge>) -> nat
    decreases charges.len(),
{
    if charges.len() == 0 {
        0
    } else {
        span(charges.drop_last()) + charges.last().empty_before as nat + 1
    }
}

/// A scan accounts for every bucket: each belongs to a charge or to the empty run at the end.
pub proof fn lemma_scan_span(buckets: Seq<u32>)
    requires
        buckets.len() <= u32::MAX,
    ensures
        span(scan(buckets).charges) + scan(buckets).reps == buckets.len(),
        scan(buckets).charges.len() <= buckets.len(),
    decreases buckets.len(),
{
    if buckets.len() > 0 {
        lemma_scan_span(buckets.drop_last());
        let before = scan(buckets.drop_last());
        if buckets.last() != 0 {
            assert(scan(buckets).charges.drop_last() =~= before.charges);
        }
    }
}

/// A scan charges the populated buckets and no others, in order.
pub proof fn lemma_scan_counts(buckets: Seq<u32>)
    ensures
        scan(buckets).charges.map_values(|c: SymbolCharge| c.count) == buckets.filter(
            |count: u32| count != 0,
        ),
    decreases buckets.len(),
{
    reveal(Seq::filter);
    let populated = |count: u32| count != 0;
    let count = |c: SymbolCharge| c.count;
    if buckets.len() > 0 {
        lemma_scan_counts(buckets.drop_last());
        if buckets.last() != 0 {
            assert(scan(buckets).charges.map_values(count) =~= scan(
                buckets.drop_last(),
            ).charges.map_values(count).push(buckets.last()));
        }
    }
    assert(scan(buckets).charges.map_values(count) =~= buckets.filter(populated));
}

/// Empty buckets lengthen the run at the end and change nothing else: a histogram costs the same
/// whatever empty buckets follow its last symbol.
pub proof fn lemma_scan_empty(buckets: Seq<u32>, from: int)
    requires
        0 <= from <= buckets.len(),
        forall|i: int| from <= i < buckets.len() ==> #[trigger] buckets[i] == 0,
    ensures
        scan(buckets) == (Scan {
            charges: scan(buckets.take(from)).charges,
            reps: scan(buckets.take(from)).reps + (buckets.len() - from) as nat,
        }),
    decreases buckets.len(),
{
    if from < buckets.len() {
        lemma_scan_empty(buckets.drop_last(), from);
        assert(buckets.drop_last().take(from) =~= buckets.take(from));
        assert(buckets.last() == 0);
    } else {
        assert(buckets.take(from) =~= buckets);
    }
}

/// The bucket values that a population cost is charged over.
pub trait Buckets {
    /// The values.
    spec fn values(&self) -> Seq<u32>;

    /// The number of buckets is the length of a slice.
    spec fn wf(&self) -> bool;

    fn len(&self) -> (len: usize)
        requires
            self.wf(),
        ensures
            len == self.values().len(),
    ;

    fn get(&self, i: usize) -> (value: u32)
        requires
            self.wf(),
            i < self.values().len(),
        ensures
            value == self.values()[i as int],
    ;

    /// The sixteen buckets from `at` on.
    fn chunk(&self, at: usize) -> (lanes: [u32; 16])
        requires
            self.wf(),
            at + 16 <= self.values().len(),
        ensures
            lanes@ == self.values().subrange(at as int, at + 16),
    ;
}

/// The buckets of one histogram.
pub struct Own<'a>(pub &'a [u32]);

/// The buckets of two histograms added lane by lane, wrapping around, and never written out. There
/// are as many as the first histogram has.
pub struct Sum<'a>(pub &'a [u32], pub &'a [u32]);

impl<'a> Buckets for Own<'a> {
    open spec fn values(&self) -> Seq<u32> {
        self.0@
    }

    open spec fn wf(&self) -> bool {
        true
    }

    fn len(&self) -> (len: usize) {
        self.0.len()
    }

    fn get(&self, i: usize) -> (value: u32) {
        self.0[i]
    }

    fn chunk(&self, at: usize) -> (lanes: [u32; 16]) {
        assert(self.0.len() <= usize::MAX);
        load_u32x16(&self.0[at..at + 16])
    }
}

impl<'a> Buckets for Sum<'a> {
    open spec fn values(&self) -> Seq<u32> {
        crate::histogram::sum_of(self.0@, self.1@)
    }

    open spec fn wf(&self) -> bool {
        self.0@.len() <= self.1@.len()
    }

    fn len(&self) -> (len: usize) {
        self.0.len()
    }

    fn get(&self, i: usize) -> (value: u32) {
        self.0[i].wrapping_add(self.1[i])
    }

    fn chunk(&self, at: usize) -> (lanes: [u32; 16]) {
        assert(self.0.len() <= usize::MAX);
        let lanes = add_u32x16(&self.0[at..at + 16], &self.1[at..at + 16]);
        assert(lanes@ =~= self.values().subrange(at as int, at + 16));
        lanes
    }
}

/// Charges one populated bucket, with the run of empty buckets before it.
pub fn accumulate_one_symbol(histo: u32, reps: &mut u32, charges: &mut Vec<SymbolCharge>)
    ensures
        *final(reps) == 0,
        final(charges)@ == old(charges)@.push(
            SymbolCharge { empty_before: *old(reps), count: histo },
        ),
{
    charges.push(SymbolCharge { empty_before: *reps, count: histo });
    *reps = 0;
}

/// One populated bucket behind a run of empty ones.
proof fn lemma_scan_symbol(values: Seq<u32>, from: int, at: int)
    requires
        0 <= from <= at < values.len(),
        forall|i: int| from <= i < at ==> #[trigger] values[i] == 0,
        values[at] != 0,
    ensures
        scan(values.take(at + 1)) == (Scan {
            charges: scan(values.take(from)).charges.push(
                SymbolCharge {
                    empty_before: (scan(values.take(from)).reps + (at - from)) as u32,
                    count: values[at],
                },
            ),
            reps: 0,
        }),
{
    lemma_scan_empty(values.take(at), from);
    assert(values.take(at).take(from) =~= values.take(from));
    assert(values.take(at + 1).drop_last() =~= values.take(at));
    assert(values.take(at + 1).last() == values[at]);
}

/// Charges every populated bucket, sixteen at a time. A chunk of empty buckets is taken in one step,
/// a full one without looking at its mask again, and a mixed one bit by bit.
#[verifier::rlimit(30)]
pub fn accumulate_symbol_costs<B: Buckets>(buckets: &B) -> (charges: Vec<SymbolCharge>)
    requires
        buckets.wf(),
        buckets.values().len() <= u32::MAX,
    ensures
        charges@ == scan(buckets.values()).charges,
{
    let ghost values = buckets.values();
    let data_size: usize = buckets.len();
    let vectorized: usize = data_size - data_size % 16;
    let mut charges: Vec<SymbolCharge> = Vec::new();
    let mut reps: u32 = 0;
    let mut at: usize = 0;
    assert(values.take(0) =~= Seq::empty());
    while at < vectorized
        invariant
            buckets.wf(),
            values == buckets.values(),
            values.len() <= u32::MAX,
            data_size == values.len(),
            vectorized <= data_size,
            vectorized % 16 == 0,
            at % 16 == 0,
            at <= vectorized,
            charges@ == scan(values.take(at as int)).charges,
            reps == scan(values.take(at as int)).reps,
            reps <= at,
        decreases vectorized - at,
    {
        let chunk = buckets.chunk(at);
        let empty: u64 = eq_mask_u32x16(&chunk, 0);
        let mut populated: u64 = !empty & 0xffff;
        proof {
            assert forall|k: int| 0 <= k < 64 implies (#[trigger] bit(populated, k) <==> k < 16
                && values[at + k] != 0) by {
                let j = k as u64;
                assert(((!empty & 0xffff) >> j) & 1 == 1 <==> (j < 16 && (empty >> j) & 1 != 1))
                    by (bit_vector)
                    requires
                        j < 64,
                ;
                assert(bit(empty, k) <==> (k < 16 && chunk@[k] == 0));
                if k < 16 {
                    assert(chunk@[k] == values[at + k]);
                }
            }
        }
        if populated == 0 {
            proof {
                assert forall|i: int| at <= i < at + 16 implies #[trigger] values.take(at + 16)[i]
                    == 0 by {
                    let j = (i - at) as u64;
                    assert((0u64 >> j) & 1 == 0) by (bit_vector);
                    assert(!bit(populated, i - at));
                }
                lemma_scan_empty(values.take(at + 16), at as int);
                assert(values.take(at + 16).take(at as int) =~= values.take(at as int));
            }
            reps += 16;
            at += 16;
        } else if populated == 0xffff {
            let mut lane: usize = 0;
            while lane < 16
                invariant
                    values.len() <= u32::MAX,
                    at + 16 <= values.len(),
                    lane <= 16,
                    chunk@.len() == 16,
                    forall|k: int| 0 <= k < 16 ==> #[trigger] chunk@[k] == values[at + k],
                    populated == 0xffff,
                    forall|k: int|
                        0 <= k < 64 ==> (#[trigger] bit(populated, k) <==> k < 16 && values[at + k]
                            != 0),
                    charges@ == scan(values.take(at + lane)).charges,
                    reps == scan(values.take(at + lane)).reps,
                    reps <= at + lane,
                decreases 16 - lane,
            {
                proof {
                    let j = lane as u64;
                    assert((0xffffu64 >> j) & 1 == 1) by (bit_vector)
                        requires
                            j < 16,
                    ;
                    assert(bit(populated, lane as int));
                    lemma_scan_symbol(values, at + lane, at + lane);
                }
                accumulate_one_symbol(chunk[lane], &mut reps, &mut charges);
                lane += 1;
            }
            at += 16;
        } else {
            let mut scanned: u32 = 0;
            while populated != 0
                invariant
                    values.len() <= u32::MAX,
                    at + 16 <= values.len(),
                    scanned <= 16,
                    chunk@.len() == 16,
                    forall|k: int| 0 <= k < 16 ==> #[trigger] chunk@[k] == values[at + k],
                    forall|k: int|
                        0 <= k < 64 ==> (#[trigger] bit(populated, k) <==> scanned <= k < 16
                            && values[at + k] != 0),
                    charges@ == scan(values.take(at + scanned)).charges,
                    reps == scan(values.take(at + scanned)).reps,
                    reps <= at + scanned,
                decreases populated,
            {
                let lane: u32 = populated.trailing_zeros();
                let rest: u64 = populated & (populated - 1);
                proof {
                    crate::vectorization::lemma_clear_lowest(populated, rest, lane as u64);
                    assert(bit(populated, lane as int));
                    assert forall|i: int| at + scanned <= i < at + lane implies #[trigger] values[i]
                        == 0 by {
                        assert(!bit(populated, i - at));
                    }
                    lemma_scan_symbol(values, at + scanned, at + lane);
                }
                reps += lane - scanned;
                scanned = lane + 1;
                populated = rest;
                accumulate_one_symbol(chunk[lane as usize], &mut reps, &mut charges);
            }
            proof {
                assert forall|i: int| at + scanned <= i < at + 16 implies #[trigger] values.take(
                    at + 16,
                )[i] == 0 by {
                    let j = (i - at) as u64;
                    assert((0u64 >> j) & 1 == 0) by (bit_vector);
                    assert(!bit(populated, i - at));
                }
                lemma_scan_empty(values.take(at + 16), at + scanned);
                assert(values.take(at + 16).take(at + scanned) =~= values.take(at + scanned));
            }
            reps += 16 - scanned;
            at += 16;
        }
    }
    let mut i: usize = vectorized;
    while i < data_size
        invariant
            buckets.wf(),
            values == buckets.values(),
            values.len() <= u32::MAX,
            data_size == values.len(),
            i <= data_size,
            charges@ == scan(values.take(i as int)).charges,
            reps == scan(values.take(i as int)).reps,
            reps <= i,
        decreases data_size - i,
    {
        let histo: u32 = buckets.get(i);
        assert(values.take(i + 1).drop_last() =~= values.take(i as int));
        if histo != 0 {
            accumulate_one_symbol(histo, &mut reps, &mut charges);
        } else {
            reps += 1;
        }
        i += 1;
    }
    assert(values.take(i as int) =~= values);
    charges
}

/// How the code lengths of a population spread, and the deepest one.
#[derive(Clone, Copy, PartialEq, Eq, Debug)]
pub struct DepthHistogram {
    pub depth_histo: [u32; 18],
    pub max_depth: usize,
}

/// How code lengths spread.
#[verifier::ext_equal]
pub struct DepthView {
    pub depth_histo: Seq<nat>,
    pub max_depth: nat,
}

impl View for DepthHistogram {
    type V = DepthView;

    open spec fn view(&self) -> DepthView {
        DepthView {
            depth_histo: self.depth_histo@.map_values(|n: u32| n as nat),
            max_depth: self.max_depth as nat,
        }
    }
}

impl DepthView {
    /// Counts `n` code lengths more at `depth`.
    pub open spec fn count(self, depth: int, n: nat) -> DepthView {
        DepthView {
            depth_histo: self.depth_histo.update(depth, self.depth_histo[depth] + n),
            max_depth: self.max_depth,
        }
    }

    /// Counts the run of empty buckets before a symbol.
    pub open spec fn count_run(self, reps: nat) -> DepthView {
        if reps < 3 {
            self.count(0, reps)
        } else {
            self.count(BROTLI_REPEAT_ZERO_CODE_LENGTH as int, run_codes(reps))
        }
    }

    /// Counts a symbol of the given depth, with the run of empty buckets before it.
    pub open spec fn count_symbol(self, reps: nat, depth: nat) -> DepthView {
        let clamped = clamped_depth(depth);
        let counted = self.count_run(reps).count(clamped as int, 1);
        DepthView {
            depth_histo: counted.depth_histo,
            max_depth: if clamped > self.max_depth {
                clamped
            } else {
                self.max_depth
            },
        }
    }
}

/// A depth as far as a code can be deep.
pub open spec fn clamped_depth(depth: nat) -> nat {
    if depth < MAX_SYMBOL_DEPTH {
        depth
    } else {
        MAX_SYMBOL_DEPTH as nat
    }
}

/// How the depths of the charged symbols spread.
pub open spec fn depth_spread(charges: Seq<SymbolCharge>, depths: Seq<usize>) -> DepthView
    decreases charges.len(),
{
    if charges.len() == 0 {
        DepthView { depth_histo: Seq::new(18, |d: int| 0), max_depth: 1 }
    } else {
        depth_spread(charges.drop_last(), depths.drop_last()).count_symbol(
            charges.last().empty_before as nat,
            depths.last() as nat,
        )
    }
}

proof fn lemma_octal_digits(n: nat)
    ensures
        octal_digits(n) <= n,
    decreases n,
{
    if n > 0 {
        lemma_octal_digits(n / 8);
    }
}

proof fn lemma_depth_spread_bound(charges: Seq<SymbolCharge>, depths: Seq<usize>)
    requires
        charges.len() == depths.len(),
    ensures
        depth_spread(charges, depths).depth_histo.len() == 18,
        depth_spread(charges, depths).max_depth <= MAX_SYMBOL_DEPTH,
        forall|d: int|
            0 <= d < 18 ==> #[trigger] depth_spread(charges, depths).depth_histo[d] <= span(
                charges,
            ),
    decreases charges.len(),
{
    if charges.len() > 0 {
        lemma_depth_spread_bound(charges.drop_last(), depths.drop_last());
        if charges.last().empty_before >= 2 {
            lemma_octal_digits((charges.last().empty_before - 2) as nat);
        }
    }
}

proof fn lemma_span_take(charges: Seq<SymbolCharge>, i: int)
    requires
        0 <= i <= charges.len(),
    ensures
        span(charges.take(i)) <= span(charges),
    decreases charges.len(),
{
    if i < charges.len() {
        lemma_span_take(charges.drop_last(), i);
        assert(charges.drop_last().take(i) =~= charges.take(i));
    } else {
        assert(charges.take(i) =~= charges);
    }
}

impl DepthHistogram {
    /// Spreads the depths of the charged symbols: `depths[i]` is the rounded binary logarithm of one
    /// over the share of the `i`-th. Runs of empty buckets count as zero lengths while they are
    /// short, and as repeat codes when they are not.
    pub fn new(charges: &[SymbolCharge], depths: &[usize]) -> (spread: DepthHistogram)
        requires
            charges@.len() == depths@.len(),
            span(charges@) <= u32::MAX,
        ensures
            spread@ == depth_spread(charges@, depths@),
    {
        let mut spread = DepthHistogram { depth_histo: [0; 18], max_depth: 1 };
        let mut i: usize = 0;
        assert(spread@ =~= depth_spread(charges@.take(0), depths@.take(0)));
        while i < charges.len()
            invariant
                i <= charges@.len(),
                charges@.len() == depths@.len(),
                span(charges@) <= u32::MAX,
                spread@ == depth_spread(charges@.take(i as int), depths@.take(i as int)),
            decreases charges@.len() - i,
        {
            proof {
                let taken = charges@.take(i as int);
                lemma_depth_spread_bound(taken, depths@.take(i as int));
                assert(charges@.take(i + 1).drop_last() =~= taken);
                assert(depths@.take(i + 1).drop_last() =~= depths@.take(i as int));
                lemma_depth_spread_bound(charges@.take(i + 1), depths@.take(i + 1));
                lemma_span_take(charges@, i + 1);
                assert forall|d: int| 0 <= d < 18 implies #[trigger] spread.depth_histo@[d] <= span(
                    taken,
                ) by {
                    assert(spread@.depth_histo[d] <= span(taken));
                }
                if charges@[i as int].empty_before >= 2 {
                    lemma_octal_digits((charges@[i as int].empty_before - 2) as nat);
                }
            }
            spread.count_symbol(charges[i].empty_before, depths[i]);
            i += 1;
        }
        assert(charges@.take(i as int) =~= charges@);
        assert(depths@.take(i as int) =~= depths@);
        spread
    }

    /// Counts one symbol with the run of empty buckets before it.
    fn count_symbol(&mut self, reps: u32, depth: usize)
        requires
            forall|d: int|
                0 <= d < 18 ==> #[trigger] old(self).depth_histo@[d] + reps + 1 <= u32::MAX,
        ensures
            final(self)@ == old(self)@.count_symbol(reps as nat, depth as nat),
    {
        let ghost before = self@;
        if reps < 3 {
            let zeros: u32 = self.depth_histo[0];
            assert(old(self).depth_histo@[0] + reps + 1 <= u32::MAX);
            self.depth_histo[0] = zeros + reps;
        } else {
            let codes: u32 = zero_run_codes(reps);
            proof {
                lemma_octal_digits((reps - 2) as nat);
                assert(old(self).depth_histo@[17] + reps + 1 <= u32::MAX);
            }
            let repeats: u32 = self.depth_histo[BROTLI_REPEAT_ZERO_CODE_LENGTH];
            self.depth_histo[BROTLI_REPEAT_ZERO_CODE_LENGTH] = repeats + codes;
        }
        assert(self@ =~= before.count_run(reps as nat));
        let clamped: usize = if depth < MAX_SYMBOL_DEPTH { depth } else { MAX_SYMBOL_DEPTH };
        if clamped > self.max_depth {
            self.max_depth = clamped;
        }
        let seen: u32 = self.depth_histo[clamped];
        assert(old(self).depth_histo@[clamped as int] + reps + 1 <= u32::MAX);
        self.depth_histo[clamped] = seen + 1;
        assert(self@ =~= before.count_symbol(reps as nat, depth as nat));
    }

    /// The bits that describe the code length code besides its entropy.
    pub fn header_bits(&self) -> (bits: usize)
        ensures
            bits == 18usize.wrapping_add(2usize.wrapping_mul(self.max_depth)),
    {
        18usize.wrapping_add(2usize.wrapping_mul(self.max_depth))
    }

    /// The entropy of the code lengths.
    pub fn entropy(&self) -> (entropy: Entropy<'_>)
        ensures
            entropy.terms@ == self.depth_histo@,
            entropy.sum == wrapping_total(self.depth_histo@),
            entropy.at_least == entropy.sum,
    {
        let entropy = BitsEntropy(&self.depth_histo, BROTLI_CODE_LENGTH_CODES);
        assert(entropy.terms@ =~= self.depth_histo@);
        entropy
    }
}

/// What a population costs. The first four kinds are sums of whole numbers of bits.
#[derive(Debug)]
pub enum PopulationCost {
    /// [`kOneSymbolHistogramCost`].
    OneSymbol,
    /// [`kTwoSymbolHistogramCost`] and one bit for each symbol.
    TwoSymbols { total_count: usize },
    /// [`kThreeSymbolHistogramCost`] and `doubled` less `largest`.
    ThreeSymbols { doubled: u32, largest: u32 },
    /// [`kFourSymbolHistogramCost`] and `tripled` and `doubled` less `largest`.
    FourSymbols { tripled: u32, doubled: u32, largest: u32 },
    /// For each charge in order, three bits for each repeat code of the run before it, and its count
    /// times the binary logarithm of its share of `total_count`; and last the cost of the code
    /// lengths.
    ManySymbols { total_count: usize, charges: Vec<SymbolCharge> },
}

/// What a population costs.
pub enum PopulationCostView {
    OneSymbol,
    TwoSymbols { total_count: usize },
    ThreeSymbols { doubled: u32, largest: u32 },
    FourSymbols { tripled: u32, doubled: u32, largest: u32 },
    ManySymbols { total_count: usize, charges: Seq<SymbolCharge> },
}

impl View for PopulationCost {
    type V = PopulationCostView;

    open spec fn view(&self) -> PopulationCostView {
        match self {
            PopulationCost::OneSymbol => PopulationCostView::OneSymbol,
            PopulationCost::TwoSymbols { total_count } => PopulationCostView::TwoSymbols {
                total_count: *total_count,
            },
            PopulationCost::ThreeSymbols {
                doubled,
                largest,
            } => PopulationCostView::ThreeSymbols { doubled: *doubled, largest: *largest },
            PopulationCost::FourSymbols {
                tripled,
                doubled,
                largest,
            } => PopulationCostView::FourSymbols {
                tripled: *tripled,
                doubled: *doubled,
                largest: *largest,
            },
            PopulationCost::ManySymbols {
                total_count,
                charges,
            } => PopulationCostView::ManySymbols { total_count: *total_count, charges: charges@ },
        }
    }
}

/// The counts of the populated buckets, in order.
pub open spec fn populated(values: Seq<u32>) -> Seq<u32> {
    values.filter(|count: u32| count != 0)
}

/// The larger of two counts.
pub open spec fn larger(a: u32, b: u32) -> u32 {
    if a >= b {
        a
    } else {
        b
    }
}

/// Counts from the largest to the smallest.
pub open spec fn largest_first(counts: Seq<u32>) -> Seq<u32> {
    counts.sort_by(|a: u32, b: u32| a >= b)
}

/// What a population of `total_count` symbols costs, whose buckets hold `values`.
pub open spec fn cost_of(values: Seq<u32>, total_count: usize) -> PopulationCostView {
    let counts = populated(values);
    if total_count == 0 || counts.len() == 1 {
        PopulationCostView::OneSymbol
    } else if counts.len() == 2 {
        PopulationCostView::TwoSymbols { total_count }
    } else if counts.len() == 3 {
        PopulationCostView::ThreeSymbols {
            doubled: 2u32.wrapping_mul(counts[0].wrapping_add(counts[1]).wrapping_add(counts[2])),
            largest: larger(counts[0], larger(counts[1], counts[2])),
        }
    } else if counts.len() == 4 {
        let sorted = largest_first(counts);
        let h23 = sorted[2].wrapping_add(sorted[3]);
        PopulationCostView::FourSymbols {
            tripled: 3u32.wrapping_mul(h23),
            doubled: 2u32.wrapping_mul(sorted[0].wrapping_add(sorted[1])),
            largest: larger(h23, sorted[0]),
        }
    } else {
        PopulationCostView::ManySymbols { total_count, charges: scan(values).charges }
    }
}

/// The larger of two counts.
fn max_u32(a: u32, b: u32) -> (m: u32)
    ensures
        m == larger(a, b),
{
    if a >= b {
        a
    } else {
        b
    }
}

/// Puts the larger of two of four counts first.
fn put_larger_first(histo: &mut [u32; 4], i: usize, j: usize)
    requires
        i < j < 4,
    ensures
        final(histo)@.to_multiset() == old(histo)@.to_multiset(),
        final(histo)@[i as int] >= final(histo)@[j as int],
        final(histo)@ == if old(histo)@[j as int] > old(histo)@[i as int] {
            old(histo)@.update(i as int, old(histo)@[j as int]).update(
                j as int,
                old(histo)@[i as int],
            )
        } else {
            old(histo)@
        },
{
    let a: u32 = histo[i];
    let b: u32 = histo[j];
    if b > a {
        histo[i] = b;
        histo[j] = a;
        proof {
            broadcast use vstd::multiset::group_multiset_axioms;

            let start = old(histo)@;
            vstd::seq_lib::to_multiset_update(start, i as int, b);
            vstd::seq_lib::to_multiset_update(start.update(i as int, b), j as int, a);
            vstd::seq_lib::to_multiset_contains(start, a);
            assert(start[i as int] == a);
            assert(histo@ =~= start.update(i as int, b).update(j as int, a));
            assert(histo@.to_multiset() =~= start.to_multiset());
        }
    }
}

/// Sorts four counts, the largest first.
fn sort_largest_first(counts: [u32; 4]) -> (sorted: [u32; 4])
    ensures
        sorted@ == largest_first(counts@),
{
    let mut histo = counts;
    put_larger_first(&mut histo, 0, 1);
    put_larger_first(&mut histo, 0, 2);
    put_larger_first(&mut histo, 0, 3);
    put_larger_first(&mut histo, 1, 2);
    put_larger_first(&mut histo, 1, 3);
    put_larger_first(&mut histo, 2, 3);
    proof {
        let descending = |a: u32, b: u32| a >= b;
        counts@.lemma_sort_by_ensures(descending);
        assert(vstd::relations::sorted_by(histo@, descending));
        vstd::seq_lib::lemma_sorted_unique(histo@, counts@.sort_by(descending), descending);
    }
    histo
}

/// Works out what a population costs.
pub fn population_cost<B: Buckets>(buckets: B, total_count: usize) -> (cost: PopulationCost)
    requires
        buckets.wf(),
        buckets.values().len() <= u32::MAX,
    ensures
        cost@ == cost_of(buckets.values(), total_count),
{
    let ghost values = buckets.values();
    let data_size: usize = buckets.len();
    if total_count == 0 {
        return PopulationCost::OneSymbol;
    }
    let mut s: Vec<u32> = Vec::new();
    let mut i: usize = 0;
    proof {
        reveal(Seq::filter);
        assert(populated(values.take(0)) =~= Seq::empty());
    }
    while i < data_size && s.len() <= 4
        invariant
            buckets.wf(),
            values == buckets.values(),
            data_size == values.len(),
            i <= data_size,
            s@ == populated(values.take(i as int)),
        decreases data_size - i,
    {
        let count: u32 = buckets.get(i);
        proof {
            reveal(Seq::filter);
            assert(values.take(i + 1).drop_last() =~= values.take(i as int));
        }
        if count > 0 {
            s.push(count);
        }
        i += 1;
    }
    proof {
        let is_populated = |count: u32| count != 0;
        Seq::filter_distributes_over_add(
            values.take(i as int),
            values.skip(i as int),
            is_populated,
        );
        assert(values.take(i as int) + values.skip(i as int) =~= values);
        if s@.len() <= 4 {
            assert(values.take(i as int) =~= values);
        }
    }
    if s.len() == 1 {
        PopulationCost::OneSymbol
    } else if s.len() == 2 {
        PopulationCost::TwoSymbols { total_count }
    } else if s.len() == 3 {
        PopulationCost::ThreeSymbols {
            doubled: 2u32.wrapping_mul(s[0].wrapping_add(s[1]).wrapping_add(s[2])),
            largest: max_u32(s[0], max_u32(s[1], s[2])),
        }
    } else if s.len() == 4 {
        let counts: [u32; 4] = [s[0], s[1], s[2], s[3]];
        assert(counts@ =~= s@);
        let histo = sort_largest_first(counts);
        let h23: u32 = histo[2].wrapping_add(histo[3]);
        PopulationCost::FourSymbols {
            tripled: 3u32.wrapping_mul(h23),
            doubled: 2u32.wrapping_mul(histo[0].wrapping_add(histo[1])),
            largest: max_u32(h23, histo[0]),
        }
    } else {
        PopulationCost::ManySymbols { total_count, charges: accumulate_symbol_costs(&buckets) }
    }
}

/// Works out what the population of `histogram` costs.
pub fn BrotliPopulationCost(histogram: &Histogram) -> (cost: PopulationCost)
    requires
        histogram@.data.len() <= u32::MAX,
    ensures
        cost@ == cost_of(histogram@.data, histogram@.total_count),
{
    population_cost(Own(&histogram.data_), histogram.total_count_)
}

/// Works out what `a` would cost with the counts of `b` added in, without adding them.
pub fn BrotliPopulationCostOfSum(a: &Histogram, b: &Histogram) -> (cost: PopulationCost)
    requires
        a@.data.len() == b@.data.len(),
        a@.data.len() <= u32::MAX,
        a@.total_count + b@.total_count <= usize::MAX,
    ensures
        cost@ == cost_of(
            crate::histogram::sum_of(a@.data, b@.data),
            (a@.total_count + b@.total_count) as usize,
        ),
{
    population_cost(Sum(&a.data_, &b.data_), a.total_count_ + b.total_count_)
}

/// Empty buckets behind the last populated one cost nothing.
pub proof fn lemma_cost_trailing_empty(values: Seq<u32>, n: nat, total_count: usize)
    ensures
        cost_of(values + Seq::new(n, |i: int| 0u32), total_count) == cost_of(values, total_count),
{
    let empty = Seq::new(n, |i: int| 0u32);
    let all = values + empty;
    let is_populated = |count: u32| count != 0;
    lemma_scan_empty(all, values.len() as int);
    assert(all.take(values.len() as int) =~= values);
    Seq::filter_distributes_over_add(values, empty, is_populated);
    lemma_none_populated(empty);
    assert(populated(all) =~= populated(values));
}

proof fn lemma_none_populated(values: Seq<u32>)
    requires
        forall|i: int| 0 <= i < values.len() ==> #[trigger] values[i] == 0,
    ensures
        populated(values) == Seq::<u32>::empty(),
    decreases values.len(),
{
    reveal(Seq::filter);
    if values.len() > 0 {
        lemma_none_populated(values.drop_last());
        assert(values.last() == 0);
    }
    assert(populated(values) =~= Seq::empty());
}

/// One summand of a cost: three bits for a repeat code, or what a symbol with this count costs.
pub enum BitTerm {
    RepeatCode,
    Symbol(u32),
}

/// What a walk over buckets, one at a time, has done: how the depths spread, the empty buckets since the
/// last symbol, and the summands so far.
#[verifier::ext_equal]
pub struct Walk {
    pub spread: DepthView,
    pub reps: nat,
    pub terms: Seq<BitTerm>,
}

/// Walks over `buckets` one at a time. An empty one lengthens the run; a populated one is charged with
/// the run before it, and `depth` tells how deep a symbol with its count is.
pub open spec fn walk(buckets: Seq<u32>, depth: spec_fn(u32) -> usize) -> Walk
    decreases buckets.len(),
{
    if buckets.len() == 0 {
        Walk {
            spread: depth_spread(Seq::empty(), Seq::empty()),
            reps: 0,
            terms: Seq::empty(),
        }
    } else {
        let before = walk(buckets.drop_last(), depth);
        let count = buckets.last();
        if count == 0 {
            Walk { reps: before.reps + 1, ..before }
        } else {
            Walk {
                spread: before.spread.count_symbol(before.reps, depth(count) as nat),
                reps: 0,
                terms: (before.terms + Seq::new(
                    run_codes(before.reps),
                    |i: int| BitTerm::RepeatCode,
                )).push(BitTerm::Symbol(count)),
            }
        }
    }
}

/// The depths of the charged symbols.
pub open spec fn depths_of(charges: Seq<SymbolCharge>, depth: spec_fn(u32) -> usize) -> Seq<usize> {
    charges.map_values(|charge: SymbolCharge| depth(charge.count))
}

/// The summands of the charges, in order.
pub open spec fn terms_of(charges: Seq<SymbolCharge>) -> Seq<BitTerm>
    decreases charges.len(),
{
    if charges.len() == 0 {
        Seq::empty()
    } else {
        (terms_of(charges.drop_last()) + Seq::new(
            run_codes(charges.last().empty_before as nat),
            |i: int| BitTerm::RepeatCode,
        )).push(BitTerm::Symbol(charges.last().count))
    }
}

/// Charging by scan is charging bucket by bucket: the same summands in the same order, and the same
/// spread of depths. The run at the end leaves no trace.
pub proof fn lemma_charges_are_walk(buckets: Seq<u32>, depth: spec_fn(u32) -> usize)
    requires
        buckets.len() <= u32::MAX,
    ensures
        terms_of(scan(buckets).charges) == walk(buckets, depth).terms,
        depth_spread(scan(buckets).charges, depths_of(scan(buckets).charges, depth)) == walk(
            buckets,
            depth,
        ).spread,
        scan(buckets).reps == walk(buckets, depth).reps,
        walk(buckets, depth).reps <= buckets.len(),
    decreases buckets.len(),
{
    if buckets.len() == 0 {
        assert(depths_of(Seq::empty(), depth) =~= Seq::empty());
    } else {
        lemma_charges_are_walk(buckets.drop_last(), depth);
        let before = scan(buckets.drop_last());
        let after = scan(buckets);
        if buckets.last() != 0 {
            assert(after.charges.drop_last() =~= before.charges);
            assert(depths_of(after.charges, depth).drop_last() =~= depths_of(
                before.charges,
                depth,
            ));
            assert(depths_of(after.charges, depth).last() == depth(buckets.last()));
        }
    }
}

/// The deepest code is at least one deep, however few symbols there are.
pub proof fn lemma_max_depth_positive(charges: Seq<SymbolCharge>, depths: Seq<usize>)
    requires
        charges.len() == depths.len(),
    ensures
        1 <= depth_spread(charges, depths).max_depth <= MAX_SYMBOL_DEPTH,
    decreases charges.len(),
{
    if charges.len() > 0 {
        lemma_max_depth_positive(charges.drop_last(), depths.drop_last());
    }
}

/// The cost of a sum is the cost of the histogram that adding `b` into `a` gives.
pub proof fn lemma_cost_of_sum(
    a: crate::histogram::HistogramView,
    b: crate::histogram::HistogramView,
)
    requires
        a.data.len() == b.data.len(),
        a.total_count + b.total_count <= usize::MAX,
    ensures
        cost_of(
            crate::histogram::sum_of(a.data, b.data),
            (a.total_count + b.total_count) as usize,
        ) == cost_of(a.add_histogram(b).data, a.add_histogram(b).total_count),
{
}

} // verus!
