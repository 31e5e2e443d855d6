//! The histograms that a search for blocks starts from: samples of the stream at random places.
use crate::histogram::{
    Histogram, HistogramAddHistogram, HistogramAddVector, HistogramClear, HistogramView, Symbol,
};
use vstd::prelude::*;

verus! {

/// How many samples are taken for each stride of the stream.
pub const kIterMulForRefining: usize = 2;

/// How many samples are taken at least.
pub const kMinItersForRefining: usize = 100;

/// What every sequence of random numbers starts from.
pub const kRandomSeed: u32 = 7;

/// The random number behind `seed`.
pub open spec fn next_rand(seed: u32) -> u32 {
    let product = seed.wrapping_mul(16807);
    if product == 0 {
        1
    } else {
        product
    }
}

/// The `n`-th random number behind `seed`.
pub open spec fn rand_after(seed: u32, n: nat) -> u32
    decreases n,
{
    if n == 0 {
        seed
    } else {
        next_rand(rand_after(seed, (n - 1) as nat))
    }
}

/// Draws the next random number.
pub fn MyRand(seed: &mut u32) -> (rand: u32)
    ensures
        rand == next_rand(*old(seed)),
        *final(seed) == rand,
{
    *seed = seed.wrapping_mul(16807);
    if *seed == 0 {
        *seed = 1;
    }
    *seed
}

/// What a row of histograms holds.
pub open spec fn views(histograms: Seq<Histogram>) -> Seq<HistogramView> {
    histograms.map_values(|histogram: Histogram| histogram@)
}

/// The first `n` histograms have `size` buckets each.
pub open spec fn sized(histograms: Seq<HistogramView>, n: int, size: nat) -> bool {
    &&& n <= histograms.len()
    &&& forall|i: int| 0 <= i < n ==> (#[trigger] histograms[i]).data.len() == size
}

/// The first `length` symbols of `data` have a bucket among `size`.
pub open spec fn within<T: Symbol>(data: Seq<T>, length: int, size: nat) -> bool {
    &&& length <= data.len()
    &&& forall|i: int| 0 <= i < length ==> (#[trigger] data[i]).spec_bucket() < size
}

/// Where the sample for histogram `i` of `num_histograms` starts: somewhere in the `i`-th part of the
/// stream, but not so late that the sample would run into its end.
pub open spec fn initial_pos(length: usize, stride: usize, num_histograms: usize, i: usize) -> int {
    let jitter = if i == 0 {
        0
    } else {
        rand_after(kRandomSeed, i as nat) as int % (length as int / num_histograms as int)
    };
    let pos = (length * i) / (num_histograms as int) + jitter;
    if pos + stride >= length {
        length - stride - 1
    } else {
        pos
    }
}

/// The sample that histogram `i` starts from.
pub open spec fn initial_code<T: Symbol>(
    data: Seq<T>,
    length: usize,
    stride: usize,
    num_histograms: usize,
    size: nat,
    i: int,
) -> HistogramView {
    let pos = initial_pos(length, stride, num_histograms, i as usize);
    HistogramView::cleared(size).add_items(data.subrange(pos, pos + stride))
}

/// Fills the first `num_histograms` histograms with one sample of `stride` symbols each.
pub fn InitialEntropyCodes<T: Symbol>(
    data: &[T],
    length: usize,
    stride: usize,
    num_histograms: usize,
    histograms: &mut Vec<Histogram>,
    size: usize,
)
    requires
        0 < num_histograms <= length,
        stride < length,
        length * num_histograms <= usize::MAX,
        within(data@, length as int, size as nat),
        sized(views(old(histograms)@), num_histograms as int, size as nat),
    ensures
        final(histograms)@.len() == old(histograms)@.len(),
        sized(views(final(histograms)@), num_histograms as int, size as nat),
        forall|i: int|
            0 <= i < final(histograms)@.len() ==> (#[trigger] final(histograms)@[i])@ == if i
                < num_histograms {
                initial_code(data@, length, stride, num_histograms, size as nat, i)
            } else {
                old(histograms)@[i]@
            },
{
    let mut seed: u32 = kRandomSeed;
    let block_length: usize = length / num_histograms;
    let mut i: usize = 0;
    proof {
        assert forall|j: int| 0 <= j < num_histograms implies (#[trigger] histograms@[j])@.data.len()
            == size by {
            assert(views(histograms@)[j].data.len() == size);
        }
        assert(block_length >= 1) by (nonlinear_arith)
            requires
                num_histograms <= length,
                num_histograms > 0,
                block_length == length / num_histograms,
        ;
    }
    while i < num_histograms
        invariant
            0 < num_histograms <= length,
            i <= num_histograms,
            stride < length,
            length * num_histograms <= usize::MAX,
            block_length == length / num_histograms,
            block_length >= 1,
            within(data@, length as int, size as nat),
            histograms@.len() == old(histograms)@.len(),
            num_histograms <= histograms@.len(),
            sized(views(old(histograms)@), num_histograms as int, size as nat),
            seed == rand_after(kRandomSeed, if i == 0 { 0 } else { (i - 1) as nat }),
            forall|j: int|
                0 <= j < histograms@.len() ==> (#[trigger] histograms@[j])@ == if j < i {
                    initial_code(data@, length, stride, num_histograms, size as nat, j)
                } else {
                    old(histograms)@[j]@
                },
            forall|j: int|
                0 <= j < num_histograms ==> (#[trigger] histograms@[j])@.data.len() == size,
        decreases num_histograms - i,
    {
        proof {
            assert(length * i <= length * num_histograms) by (nonlinear_arith)
                requires
                    i <= num_histograms,
            ;
            let base = (length * i) as int / num_histograms as int;
            assert(0 <= base && base + block_length <= length) by (nonlinear_arith)
                requires
                    base == (length * i) as int / num_histograms as int,
                    block_length == length as int / num_histograms as int,
                    i < num_histograms,
                    num_histograms > 0,
                    length >= 0,
            ;
            if i > 0 {
                assert(2 * length <= length * num_histograms) by (nonlinear_arith)
                    requires
                        num_histograms >= 2,
                ;
            }
        }
        let mut pos: usize = length * i / num_histograms;
        if i != 0 {
            pos = pos + MyRand(&mut seed) as usize % block_length;
        }
        if pos + stride >= length {
            pos = length - stride - 1;
        }
        assert(pos == initial_pos(length, stride, num_histograms, i));
        let end: usize = pos + stride;
        let sample = &data[pos..end];
        assert forall|k: int| 0 <= k < sample@.len() implies (#[trigger] sample@[k]).spec_bucket()
            < size by {
            assert(sample@[k] == data@[pos + k]);
        }
        assert(views(old(histograms)@)[i as int].data.len() == size);
        let ghost before = histograms@;
        HistogramClear(&mut histograms[i]);
        HistogramAddVector(&mut histograms[i], sample);
        assert forall|j: int| 0 <= j < histograms@.len() && j != i implies (#[trigger] histograms@[
            j])@ == before[j]@ by {}
        i += 1;
    }
    assert forall|j: int| 0 <= j < num_histograms implies (#[trigger] views(
        histograms@,
    )[j]).data.len() == size by {
        assert(histograms@[j]@.data.len() == size);
    }
}

/// Which symbols a sample takes, and the seed behind it.
pub struct Sample {
    pub pos: int,
    pub len: nat,
    pub seed: u32,
}

/// The sample that `seed` draws: `stride` symbols from a random place, or the whole stream where it
/// is no longer than that.
pub open spec fn sample_at(seed: u32, length: usize, stride: usize) -> Sample {
    if stride >= length {
        Sample { pos: 0, len: length as nat, seed }
    } else {
        Sample {
            pos: next_rand(seed) as int % (length - stride + 1),
            len: stride as nat,
            seed: next_rand(seed),
        }
    }
}

/// Counts a sample of the first `length` symbols of `data`.
pub fn RandomSample<T: Symbol>(
    seed: &mut u32,
    data: &[T],
    length: usize,
    stride: usize,
    sample: &mut Histogram,
)
    requires
        within(data@, length as int, old(sample)@.data.len()),
        0 < stride || length < usize::MAX,
    ensures
        ({
            let drawn = sample_at(*old(seed), length, stride);
            &&& *final(seed) == drawn.seed
            &&& 0 <= drawn.pos <= drawn.pos + drawn.len <= length
            &&& final(sample)@ == old(sample)@.add_items(
                data@.subrange(drawn.pos, drawn.pos + drawn.len),
            )
            &&& final(sample)@.data.len() == old(sample)@.data.len()
        }),
{
    let mut pos: usize = 0;
    let mut count: usize = length;
    if stride < length {
        let places: usize = length - stride + 1;
        let rand: usize = MyRand(seed) as usize;
        pos = rand % places;
        count = stride;
        proof {
            vstd::arithmetic::div_mod::lemma_mod_bound(rand as int, places as int);
        }
    }
    let end: usize = pos + count;
    let run = &data[pos..end];
    assert forall|k: int| 0 <= k < run@.len() implies (#[trigger] run@[k]).spec_bucket()
        < sample@.data.len() by {
        assert(run@[k] == data@[pos + k]);
    }
    HistogramAddVector(sample, run);
}

/// How many samples refine `num_histograms` histograms: as many for each of them.
pub open spec fn refine_iters(length: usize, stride: usize, num_histograms: usize) -> usize {
    let wanted = (kIterMulForRefining.wrapping_mul(length) / stride).wrapping_add(
        kMinItersForRefining,
    );
    (wanted.wrapping_add(num_histograms).wrapping_sub(1) / num_histograms).wrapping_mul(
        num_histograms,
    )
}

/// Histograms with the samples that they were refined by, and the seed behind the last one.
#[verifier::ext_equal]
pub struct Refined {
    pub histograms: Seq<HistogramView>,
    pub seed: u32,
}

/// `start` refined by the first `n` samples, which go to the histograms in turn.
pub open spec fn refined<T: Symbol>(
    data: Seq<T>,
    length: usize,
    stride: usize,
    num_histograms: usize,
    size: nat,
    n: nat,
    start: Seq<HistogramView>,
) -> Refined
    decreases n,
{
    if n == 0 {
        Refined { histograms: start, seed: kRandomSeed }
    } else {
        let before = refined(
            data,
            length,
            stride,
            num_histograms,
            size,
            (n - 1) as nat,
            start,
        );
        let drawn = sample_at(before.seed, length, stride);
        let sample = HistogramView::cleared(size).add_items(
            data.subrange(drawn.pos, drawn.pos + drawn.len),
        );
        let k = (n - 1) % (num_histograms as int);
        Refined {
            histograms: before.histograms.update(k, before.histograms[k].add_histogram(sample)),
            seed: drawn.seed,
        }
    }
}

/// Adds random samples to the first `num_histograms` histograms in turn.
pub fn RefineEntropyCodes<T: Symbol>(
    data: &[T],
    length: usize,
    stride: usize,
    num_histograms: usize,
    histograms: &mut Vec<Histogram>,
    size: usize,
)
    requires
        0 < stride,
        0 < num_histograms,
        within(data@, length as int, size as nat),
        sized(views(old(histograms)@), num_histograms as int, size as nat),
    ensures
        views(final(histograms)@) == refined(
            data@,
            length,
            stride,
            num_histograms,
            size as nat,
            refine_iters(length, stride, num_histograms) as nat,
            views(old(histograms)@),
        ).histograms,
        sized(views(final(histograms)@), num_histograms as int, size as nat),
        final(histograms)@.len() == old(histograms)@.len(),
{
    let wanted: usize = (kIterMulForRefining.wrapping_mul(length) / stride).wrapping_add(
        kMinItersForRefining,
    );
    let iters: usize = (wanted.wrapping_add(num_histograms).wrapping_sub(1)
        / num_histograms).wrapping_mul(num_histograms);
    let mut seed: u32 = kRandomSeed;
    let mut iter: usize = 0;
    let ghost start = views(histograms@);
    while iter < iters
        invariant
            0 < stride,
            0 < num_histograms <= histograms@.len(),
            iter <= iters,
            within(data@, length as int, size as nat),
            histograms@.len() == old(histograms)@.len(),
            sized(views(histograms@), num_histograms as int, size as nat),
            (Refined { histograms: views(histograms@), seed }) == refined(
                data@,
                length,
                stride,
                num_histograms,
                size as nat,
                iter as nat,
                start,
            ),
        decreases iters - iter,
    {
        let ghost before = views(histograms@);
        let mut sample = Histogram::new(size);
        RandomSample(&mut seed, data, length, stride, &mut sample);
        let k: usize = iter % num_histograms;
        assert(before[k as int].data.len() == size);
        HistogramAddHistogram(&mut histograms[k], &sample);
        assert(views(histograms@) =~= before.update(
            k as int,
            before[k as int].add_histogram(sample@),
        ));
        iter += 1;
    }
}

} // verus!
