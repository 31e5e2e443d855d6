//! Laws of the samples that a search for blocks starts from.
use crate::block_splitter::entropy_codes::{
    initial_code, initial_pos, rand_after, refine_iters, refined, sample_at, views,
    InitialEntropyCodes, MyRand, RandomSample, RefineEntropyCodes,
};
use crate::histogram::{Histogram, HistogramView, Symbol};
use crate::laws::histogram::{law_counts, occurrences};
use vstd::prelude::*;

verus! {

/// The next random number is the last one times a constant, modulo its range, and never zero. It is also
/// the next seed.
pub proof fn law_random(seed: &mut u32, rand: u32)
    requires
        call_ensures(MyRand, (seed,), rand),
    ensures
        (*old(seed) * 16807) % 0x1_0000_0000 != 0 ==> rand == (*old(seed) * 16807) % 0x1_0000_0000,
        (*old(seed) * 16807) % 0x1_0000_0000 == 0 ==> rand == 1,
        *final(seed) == rand,
{
}

/// Random numbers follow each other: the first is the seed, and every other is drawn from the one before.
pub proof fn law_random_sequence(seed: u32, n: nat)
    ensures
        rand_after(seed, 0) == seed,
        ({
            let product = (rand_after(seed, n) * 16807) % 0x1_0000_0000;
            rand_after(seed, n + 1) == if product == 0 {
                1
            } else {
                product
            }
        }),
{
}

/// The sample that a histogram starts from lies within the stream. It starts in the part of the stream
/// that belongs to the histogram, at a random place, or as late as a sample may start; that of the first
/// starts at the first symbol.
pub proof fn law_initial_place(length: usize, stride: usize, n: usize, i: usize)
    requires
        0 < n <= length,
        stride < length,
        i < n,
    ensures
        ({
            let pos = initial_pos(length, stride, n, i);
            let part = (length * i) / (n as int);
            let place = part + if i == 0 {
                0
            } else {
                rand_after(7, i as nat) as int % (length as int / n as int)
            };
            &&& 0 <= pos
            &&& pos + stride < length
            &&& place + stride < length ==> pos == place && part <= pos < part + length as int / n as int
            &&& place + stride >= length ==> pos == length - stride - 1
            &&& i == 0 ==> pos == 0
        }),
{
    let block = length as int / n as int;
    let part = (length * i) / (n as int);
    assert(block >= 1) by (nonlinear_arith)
        requires
            block == length as int / n as int,
            0 < n <= length,
    ;
    assert(part >= 0) by (nonlinear_arith)
        requires
            part == (length * i) / (n as int),
            n > 0,
            length >= 0,
            i >= 0,
    ;
    vstd::arithmetic::div_mod::lemma_mod_bound(rand_after(7, i as nat) as int, block);
    if i == 0 {
        assert(length * i == 0);
        assert((0int) / (n as int) == 0) by (nonlinear_arith)
            requires
                n > 0,
        ;
    }
}

/// What a histogram starts from counts the symbols of its sample, and nothing else.
pub proof fn law_initial_sample<T: Symbol>(
    data: Seq<T>,
    length: usize,
    stride: usize,
    n: usize,
    size: nat,
    i: int,
    at: int,
)
    requires
        0 < n <= length <= data.len(),
        stride < length,
        stride <= u32::MAX,
        0 <= i < n,
        forall|k: int| 0 <= k < length ==> (#[trigger] data[k]).spec_bucket() < size,
        0 <= at < size,
    ensures
        ({
            let pos = initial_pos(length, stride, n, i as usize);
            let code = initial_code(data, length, stride, n, size, i);
            &&& code.data.len() == size
            &&& code.total_count == stride
            &&& code.data[at] == occurrences(data.subrange(pos, pos + stride), at)
        }),
{
    law_initial_place(length, stride, n, i as usize);
    let pos = initial_pos(length, stride, n, i as usize);
    let items = data.subrange(pos, pos + stride);
    lemma_few_occurrences(items, at);
    law_counts(HistogramView::cleared(size), items, at);
}

proof fn lemma_few_occurrences<T: Symbol>(items: Seq<T>, at: int)
    ensures
        occurrences(items, at) <= items.len(),
    decreases items.len(),
{
    if items.len() > 0 {
        lemma_few_occurrences(items.drop_last(), at);
    }
}

/// A sample of a stream that is longer than it has as many symbols as it is to have, from a random place
/// where they all fit; one of a shorter stream is the whole stream, and draws no random number.
pub proof fn law_sample_place(seed: u32, length: usize, stride: usize)
    requires
        stride > 0,
    ensures
        ({
            let drawn = sample_at(seed, length, stride);
            let product = (seed * 16807) % 0x1_0000_0000;
            let rand = if product == 0 {
                1
            } else {
                product
            };
            &&& stride >= length ==> drawn.pos == 0 && drawn.len == length && drawn.seed == seed
            &&& stride < length ==> drawn.len == stride && drawn.seed == rand && drawn.pos == rand % (
            length - stride + 1)
            &&& 0 <= drawn.pos
            &&& drawn.pos + drawn.len <= length
        }),
{
    if stride < length {
        let places = length - stride + 1;
        let product = (seed * 16807) % 0x1_0000_0000;
        let rand = if product == 0 {
            1
        } else {
            product
        };
        vstd::arithmetic::div_mod::lemma_mod_bound(rand as int, places as int);
    }
}

/// A random sample adds its symbols to what a histogram has counted.
pub proof fn law_random_sample<T: Symbol>(
    seed: &mut u32,
    data: &[T],
    length: usize,
    stride: usize,
    sample: &mut Histogram,
    at: int,
)
    requires
        stride > 0,
        length <= data@.len(),
        forall|k: int|
            0 <= k < length ==> (#[trigger] data@[k]).spec_bucket() < old(sample).data_@.len(),
        0 <= at < old(sample).data_@.len(),
        old(sample).data_@[at] + length <= u32::MAX,
        old(sample).total_count_ + length <= usize::MAX,
        call_ensures(RandomSample::<T>, (seed, data, length, stride, sample), ()),
    ensures
        ({
            let drawn = sample_at(*old(seed), length, stride);
            let items = data@.subrange(drawn.pos, drawn.pos + drawn.len);
            &&& *final(seed) == drawn.seed
            &&& final(sample).total_count_ == old(sample).total_count_ + if stride < length {
                stride
            } else {
                length
            }
            &&& final(sample).data_@[at] == old(sample).data_@[at] + occurrences(items, at)
        }),
{
    law_sample_place(*old(seed), length, stride);
    let drawn = sample_at(*old(seed), length, stride);
    let items = data@.subrange(drawn.pos, drawn.pos + drawn.len);
    assert forall|k: int| 0 <= k < items.len() implies (#[trigger] items[k]).spec_bucket() < old(
        sample,
    ).data_@.len() by {
        assert(items[k] == data@[drawn.pos + k]);
    }
    lemma_few_occurrences(items, at);
    law_counts(old(sample)@, items, at);
}

/// The histograms get equally many samples: at least two for each stride of the stream and a hundred more
/// in all, and no more than it takes to give all the same.
pub proof fn law_sample_count(length: usize, stride: usize, n: usize)
    requires
        0 < stride,
        0 < n,
        2 * length + 100 + n <= usize::MAX,
    ensures
        ({
            let iters = refine_iters(length, stride, n) as int;
            let wanted = (2 * length) / (stride as int) + 100;
            &&& iters % (n as int) == 0
            &&& wanted <= iters < wanted + n
        }),
{
    let wanted = (2 * length) / (stride as int) + 100;
    assert(0 <= (2 * length) / (stride as int) <= 2 * length) by (nonlinear_arith)
        requires
            stride > 0,
            length >= 0,
    ;
    let up = wanted + n - 1;
    let q = up / (n as int);
    vstd::arithmetic::div_mod::lemma_fundamental_div_mod(up, n as int);
    vstd::arithmetic::div_mod::lemma_mod_bound(up, n as int);
    assert(q * n == n * q && 0 <= q) by (nonlinear_arith)
        requires
            q == up / (n as int),
            up >= 0,
            n > 0,
    ;
    vstd::arithmetic::div_mod::lemma_mod_multiples_basic(q, n as int);
    let range = (usize::MAX + 1) as nat;
    vstd::arithmetic::div_mod::lemma_small_mod((2 * length) as nat, range);
    vstd::arithmetic::div_mod::lemma_small_mod((q * n) as nat, range);
    assert(2usize.wrapping_mul(length) == 2 * length);
    assert((2usize.wrapping_mul(length) / stride).wrapping_add(100) == wanted);
    assert((wanted as usize).wrapping_add(n).wrapping_sub(1) == up);
    assert((up as usize) / n == q);
    assert((q as usize).wrapping_mul(n) == q * n);
    assert(refine_iters(length, stride, n) == q * n);
}

/// Refining takes one sample after the other, from the first seed on. The histograms get them in turn,
/// and each adds its symbols to the histogram whose turn it is, and changes no other.
pub proof fn law_refined_in_turn<T: Symbol>(
    data: Seq<T>,
    length: usize,
    stride: usize,
    n: usize,
    size: nat,
    k: nat,
    start: Seq<HistogramView>,
    h: int,
)
    requires
        0 < n,
        0 < stride,
        n <= start.len(),
        0 <= h < start.len(),
        length <= data.len(),
        forall|i: int| 0 <= i < length ==> (#[trigger] data[i]).spec_bucket() < size,
    ensures
        refined(data, length, stride, n, size, 0, start).histograms == start,
        refined(data, length, stride, n, size, 0, start).seed == 7,
        ({
            let before = refined(data, length, stride, n, size, k, start);
            let after = refined(data, length, stride, n, size, k + 1, start);
            let drawn = sample_at(before.seed, length, stride);
            let items = data.subrange(drawn.pos, drawn.pos + drawn.len);
            &&& before.histograms.len() == start.len()
            &&& after.histograms.len() == start.len()
            &&& after.seed == drawn.seed
            &&& h != (k as int) % (n as int) ==> after.histograms[h] == before.histograms[h]
            &&& h == (k as int) % (n as int) && before.histograms[h].total_count + items.len()
                <= usize::MAX ==> after.histograms[h].total_count == before.histograms[h].total_count
                + items.len()
            &&& h == (k as int) % (n as int) && before.histograms[h].data.len() == size
                ==> after.histograms[h].data.len() == size && forall|at: int|
                0 <= at < size && before.histograms[h].data[at] + items.len() <= u32::MAX
                    && items.len() <= u32::MAX ==> #[trigger] after.histograms[h].data[at]
                    == before.histograms[h].data[at] + occurrences(items, at)
        }),
{
    lemma_refined_len(data, length, stride, n, size, k, start);
    lemma_refined_len(data, length, stride, n, size, k + 1, start);
    let before = refined(data, length, stride, n, size, k, start);
    let after = refined(data, length, stride, n, size, k + 1, start);
    law_sample_place(before.seed, length, stride);
    let drawn = sample_at(before.seed, length, stride);
    let items = data.subrange(drawn.pos, drawn.pos + drawn.len);
    assert forall|i: int| 0 <= i < items.len() implies (#[trigger] items[i]).spec_bucket()
        < size by {
        assert(items[i] == data[drawn.pos + i]);
    }
    vstd::arithmetic::div_mod::lemma_mod_bound(k as int, n as int);
    if h == (k as int) % (n as int) {
        lemma_total(HistogramView::cleared(size), items);
        assert forall|at: int|
            0 <= at < size && before.histograms[h].data.len() == size
                && before.histograms[h].data[at] + items.len() <= u32::MAX && items.len()
                <= u32::MAX implies #[trigger] after.histograms[h].data[at]
            == before.histograms[h].data[at] + occurrences(items, at) by {
            lemma_few_occurrences(items, at);
            law_counts(HistogramView::cleared(size), items, at);
        }
    }
}

proof fn lemma_total<T: Symbol>(start: HistogramView, items: Seq<T>)
    requires
        start.total_count + items.len() <= usize::MAX,
    ensures
        start.add_items(items).total_count == start.total_count + items.len(),
    decreases items.len(),
{
    if items.len() > 0 {
        lemma_total(start, items.drop_last());
    }
}

proof fn lemma_refined_len<T: Symbol>(
    data: Seq<T>,
    length: usize,
    stride: usize,
    n: usize,
    size: nat,
    k: nat,
    start: Seq<HistogramView>,
)
    requires
        0 < n <= start.len(),
    ensures
        refined(data, length, stride, n, size, k, start).histograms.len() == start.len(),
    decreases k,
{
    if k > 0 {
        lemma_refined_len(data, length, stride, n, size, (k - 1) as nat, start);
        vstd::arithmetic::div_mod::lemma_mod_bound(k - 1, n as int);
    }
}

/// The first histograms start from a sample each: as many symbols as a sample has, from the place that
/// belongs to the histogram. The others stay as they are.
pub proof fn law_initial_codes<T: Symbol>(
    data: &[T],
    length: usize,
    stride: usize,
    n: usize,
    histograms: &mut Vec<Histogram>,
    size: usize,
    i: int,
    at: int,
)
    requires
        0 < n <= length <= data@.len(),
        stride < length,
        stride <= u32::MAX,
        forall|k: int| 0 <= k < length ==> (#[trigger] data@[k]).spec_bucket() < size,
        0 <= i < old(histograms)@.len(),
        0 <= at < size,
        call_ensures(
            InitialEntropyCodes::<T>,
            (data, length, stride, n, histograms, size),
            (),
        ),
    ensures
        final(histograms)@.len() == old(histograms)@.len(),
        i < n ==> {
            let pos = initial_pos(length, stride, n, i as usize);
            &&& final(histograms)@[i].data_@.len() == size
            &&& final(histograms)@[i].total_count_ == stride
            &&& final(histograms)@[i].data_@[at] == occurrences(
                data@.subrange(pos, pos + stride),
                at,
            )
        },
        i >= n ==> final(histograms)@[i]@ == old(histograms)@[i]@,
{
    if i < n {
        law_initial_sample(data@, length, stride, n, size as nat, i, at);
        assert(final(histograms)@[i]@ == initial_code(data@, length, stride, n, size as nat, i));
    } else {
        assert(final(histograms)@[i]@ == old(histograms)@[i]@);
    }
}

/// How many of the numbers below `k` leave `h` when divided by `n`.
spec fn turns(k: int, n: int, h: int) -> int
    decreases k,
{
    if k <= 0 {
        0
    } else {
        turns(k - 1, n, h) + if (k - 1) % n == h {
            1int
        } else {
            0
        }
    }
}

proof fn lemma_turns(k: int, n: int, h: int)
    requires
        k >= 0,
        0 < n,
        0 <= h < n,
    ensures
        turns(k, n, h) == k / n + if h < k % n {
            1int
        } else {
            0
        },
    decreases k,
{
    if k > 0 {
        lemma_turns(k - 1, n, h);
        let q = (k - 1) / n;
        let r = (k - 1) % n;
        vstd::arithmetic::div_mod::lemma_fundamental_div_mod(k - 1, n);
        vstd::arithmetic::div_mod::lemma_mod_bound(k - 1, n);
        if r + 1 < n {
            vstd::arithmetic::div_mod::lemma_fundamental_div_mod_converse(k, n, q, r + 1);
        } else {
            assert(n * q + n == (q + 1) * n) by (nonlinear_arith);
            vstd::arithmetic::div_mod::lemma_fundamental_div_mod_converse(k, n, q + 1, 0);
        }
    } else {
        assert((0int) / n == 0 && (0int) % n == 0) by (nonlinear_arith)
            requires
                n > 0,
        ;
    }
}

proof fn lemma_refined_total<T: Symbol>(
    data: Seq<T>,
    length: usize,
    stride: usize,
    n: usize,
    size: nat,
    k: nat,
    start: Seq<HistogramView>,
    h: int,
    sample: int,
)
    requires
        0 < n <= start.len(),
        0 < stride,
        0 <= h < n,
        length <= data.len(),
        sample == if stride < length {
            stride
        } else {
            length
        },
        start[h].total_count + turns(k as int, n as int, h) * sample <= usize::MAX,
    ensures
        refined(data, length, stride, n, size, k, start).histograms[h].total_count
            == start[h].total_count + turns(k as int, n as int, h) * sample,
    decreases k,
{
    if k > 0 {
        let fewer = turns(k - 1, n as int, h);
        let all = turns(k as int, n as int, h);
        assert(fewer * sample <= all * sample) by (nonlinear_arith)
            requires
                fewer <= all,
                sample >= 0,
        ;
        lemma_refined_total(data, length, stride, n, size, (k - 1) as nat, start, h, sample);
        lemma_refined_len(data, length, stride, n, size, (k - 1) as nat, start);
        let before = refined(data, length, stride, n, size, (k - 1) as nat, start);
        law_sample_place(before.seed, length, stride);
        let drawn = sample_at(before.seed, length, stride);
        let items = data.subrange(drawn.pos, drawn.pos + drawn.len);
        vstd::arithmetic::div_mod::lemma_mod_bound(k - 1, n as int);
        if (k - 1) % (n as int) == h {
            lemma_total(HistogramView::cleared(size), items);
            assert(all * sample == fewer * sample + sample) by (nonlinear_arith)
                requires
                    all == fewer + 1,
            ;
        }
    } else {
        assert(turns(0, n as int, h) * sample == 0) by (nonlinear_arith)
            requires
                turns(0, n as int, h) == 0,
        ;
    }
}

/// Refining gives each of the first histograms the same number of samples, whole ones, or the whole
/// stream where it is shorter: together at least two for each stride of the stream and a hundred more,
/// and no more than it takes to give all the same. The other histograms stay as they are.
pub proof fn law_refined_codes<T: Symbol>(
    data: &[T],
    length: usize,
    stride: usize,
    n: usize,
    histograms: &mut Vec<Histogram>,
    size: usize,
    h: int,
    samples: int,
    sample: int,
)
    requires
        0 < stride,
        0 < n <= old(histograms)@.len(),
        length <= data@.len(),
        2 * length + 100 + n <= usize::MAX,
        0 <= h < old(histograms)@.len(),
        (2 * length) / (stride as int) + 100 <= samples * n < (2 * length) / (stride as int) + 100 + n,
        sample == if stride < length {
            stride
        } else {
            length
        },
        h < n ==> old(histograms)@[h].total_count_ + samples * sample <= usize::MAX,
        call_ensures(
            RefineEntropyCodes::<T>,
            (data, length, stride, n, histograms, size),
            (),
        ),
    ensures
        final(histograms)@.len() == old(histograms)@.len(),
        h < n ==> final(histograms)@[h].total_count_ == old(histograms)@[h].total_count_ + samples
            * sample,
        h >= n ==> final(histograms)@[h]@ == old(histograms)@[h]@,
{
    let start = views(old(histograms)@);
    let iters = refine_iters(length, stride, n) as int;
    law_sample_count(length, stride, n);
    let even = iters / (n as int);
    vstd::arithmetic::div_mod::lemma_fundamental_div_mod(iters, n as int);
    assert(even == samples) by (nonlinear_arith)
        requires
            iters == n * even,
            -(n as int) < iters - samples * n < n,
            n > 0,
    ;
    lemma_refined_len(data@, length, stride, n, size as nat, iters as nat, start);
    assert(views(final(histograms)@)[h] == final(histograms)@[h]@);
    assert(start[h] == old(histograms)@[h]@);
    if h < n {
        lemma_turns(iters, n as int, h);
        assert(turns(iters, n as int, h) == samples);
        lemma_refined_total(
            data@,
            length,
            stride,
            n,
            size as nat,
            iters as nat,
            start,
            h,
            sample,
        );
    } else {
        lemma_refined_other(data@, length, stride, n, size as nat, iters as nat, start, h);
    }
}

proof fn lemma_refined_other<T: Symbol>(
    data: Seq<T>,
    length: usize,
    stride: usize,
    n: usize,
    size: nat,
    k: nat,
    start: Seq<HistogramView>,
    h: int,
)
    requires
        0 < n <= h < start.len(),
    ensures
        refined(data, length, stride, n, size, k, start).histograms[h] == start[h],
    decreases k,
{
    if k > 0 {
        lemma_refined_other(data, length, stride, n, size, (k - 1) as nat, start, h);
        lemma_refined_len(data, length, stride, n, size, (k - 1) as nat, start);
        vstd::arithmetic::div_mod::lemma_mod_bound(k - 1, n as int);
    }
}

} // verus!
