//! Giving blocks of similar statistics the same type.
//!
//! Clustering goes in stages. [`BlockClusterer`] hands out the histograms of up to
//! [`HISTOGRAMS_PER_BATCH`] blocks at a time and takes back how a batch was combined; what all
//! batches leave is combined once more. [`ClusterChoice`] then picks for each block the cluster that
//! codes it in the fewest bits, and writes the split.
use crate::block_split::BlockSplit;
use crate::histogram::{Histogram, HistogramAddVector, HistogramView, Symbol};
use vstd::prelude::*;

verus! {

/// How many blocks are combined at a time.
pub const HISTOGRAMS_PER_BATCH: usize = 64;

/// How many pairs of histograms a batch can have.
pub const MAX_PAIRS_PER_BATCH: usize = 2048;

/// How many types a stream can have.
pub const MAX_BLOCK_TYPES: usize = 256;

/// What a cluster has instead of a type before one of its blocks comes up.
pub const kInvalidIndex: u32 = u32::MAX;

/// Where block `k` starts.
pub open spec fn block_start(lengths: Seq<u32>, k: int) -> int {
    super::block_lengths::total(lengths.take(k)) as int
}

/// The symbols of block `k`.
pub open spec fn block_symbols<T>(data: Seq<T>, lengths: Seq<u32>, k: int) -> Seq<T> {
    data.subrange(block_start(lengths, k), block_start(lengths, k + 1))
}

/// The histogram of block `k`.
pub open spec fn block_histogram<T: Symbol>(
    data: Seq<T>,
    lengths: Seq<u32>,
    k: int,
    size: nat,
) -> HistogramView {
    HistogramView::cleared(size).add_items(block_symbols(data, lengths, k))
}

/// Counts the symbols of block `k`, which start at `pos`.
fn count_block<T: Symbol>(data: &[T], lengths: &[u32], k: usize, pos: usize, size: usize) -> (counted: (
    Histogram,
    usize,
))
    requires
        k < lengths@.len(),
        pos == block_start(lengths@, k as int),
        super::entropy_codes::within(
            data@,
            super::block_lengths::total(lengths@) as int,
            size as nat,
        ),
    ensures
        counted.0@ == block_histogram(data@, lengths@, k as int, size as nat),
        counted.0@.data.len() == size,
        counted.1 == block_start(lengths@, k + 1),
{
    proof {
        super::block_lengths::lemma_total_take(lengths@, k as int);
        super::block_lengths::lemma_total_take(lengths@, k + 1);
    }
    assert(data.len() <= usize::MAX);
    let end: usize = pos + lengths[k] as usize;
    let run = &data[pos..end];
    assert forall|j: int| 0 <= j < run@.len() implies (#[trigger] run@[j]).spec_bucket() < size by {
        assert(run@[j] == data@[pos + j]);
    }
    let mut histogram = Histogram::new(size);
    HistogramAddVector(&mut histogram, run);
    (histogram, end)
}

/// How a row of histograms was combined: the histograms, how many blocks each stands for, the
/// histogram that each block ended up in, and which histograms are left.
#[derive(Debug)]
pub struct Combined {
    pub histograms: Vec<Histogram>,
    pub sizes: Vec<u32>,
    pub symbols: Vec<u32>,
    pub clusters: Vec<u32>,
}

/// `remap` after the first `n` clusters were numbered from zero on.
pub open spec fn renumbered(remap: Seq<u32>, clusters: Seq<u32>, n: int) -> Seq<u32>
    decreases n,
{
    if n <= 0 {
        remap
    } else {
        renumbered(remap, clusters, n - 1).update(clusters[n - 1] as int, (n - 1) as u32)
    }
}

/// The first stage of clustering.
#[derive(Debug)]
pub struct BlockClusterer {
    block_lengths: Vec<u32>,
    next_block: usize,
    pos: usize,
    all_histograms: Vec<Histogram>,
    cluster_size: Vec<u32>,
    histogram_symbols: Vec<u32>,
    remap: [u32; 64],
}

impl BlockClusterer {
    /// The lengths of the blocks.
    pub closed spec fn lengths(&self) -> Seq<u32> {
        self.block_lengths@
    }

    /// The first block of the next batch.
    pub closed spec fn spec_next_block(&self) -> int {
        self.next_block as int
    }

    /// The histograms of the clusters so far.
    pub closed spec fn histograms(&self) -> Seq<HistogramView> {
        super::entropy_codes::views(self.all_histograms@)
    }

    /// How many blocks each cluster stands for.
    pub closed spec fn sizes(&self) -> Seq<u32> {
        self.cluster_size@
    }

    /// The clusters that the blocks so far are in.
    pub closed spec fn symbols(&self) -> Seq<u32> {
        self.histogram_symbols@
    }

    /// The numbers that the clusters of the last batch got there.
    pub closed spec fn spec_remap(&self) -> Seq<u32> {
        self.remap@
    }

    /// The lengths of the blocks.
    pub fn block_lengths(&self) -> (lengths: &Vec<u32>)
        ensures
            lengths@ == self.lengths(),
    {
        &self.block_lengths
    }

    /// The first block of the next batch.
    pub fn next_block(&self) -> (next_block: usize)
        ensures
            next_block == self.spec_next_block(),
    {
        self.next_block
    }

    /// The histograms of the clusters so far.
    pub fn all_histograms(&self) -> (histograms: &Vec<Histogram>)
        ensures
            super::entropy_codes::views(histograms@) == self.histograms(),
    {
        &self.all_histograms
    }

    /// How many blocks each cluster stands for.
    pub fn cluster_size(&self) -> (sizes: &Vec<u32>)
        ensures
            sizes@ == self.sizes(),
    {
        &self.cluster_size
    }

    /// The clusters that the blocks so far are in.
    pub fn histogram_symbols(&self) -> (symbols: &Vec<u32>)
        ensures
            symbols@ == self.symbols(),
    {
        &self.histogram_symbols
    }

    /// The blocks before `next_block` are done and have a cluster each.
    pub closed spec fn wf(&self) -> bool {
        &&& self.next_block <= self.block_lengths@.len()
        &&& super::block_lengths::total(self.block_lengths@) <= usize::MAX
        &&& self.pos == block_start(self.block_lengths@, self.next_block as int)
        &&& self.histogram_symbols@.len() == self.next_block
        &&& self.cluster_size@.len() == self.all_histograms@.len()
    }

    /// How many blocks the next batch has.
    pub open spec fn batch_size(&self) -> int {
        if self.lengths().len() - self.spec_next_block() < HISTOGRAMS_PER_BATCH {
            self.lengths().len() - self.spec_next_block()
        } else {
            HISTOGRAMS_PER_BATCH as int
        }
    }

    /// Starts with the `num_blocks` blocks that the first `length` ids make.
    pub fn new(block_ids: &[u8], length: usize, num_blocks: usize) -> (clusterer: BlockClusterer)
        requires
            length <= block_ids@.len(),
            super::find_blocks::run_count(block_ids@.take(length as int)) <= num_blocks,
        ensures
            clusterer.wf(),
            clusterer.lengths() == super::block_lengths::padded(
                super::block_lengths::run_lengths(block_ids@.take(length as int)),
                num_blocks as int,
            ),
            super::block_lengths::total(clusterer.lengths()) <= length,
            length <= u32::MAX ==> super::block_lengths::total(clusterer.lengths()) == length,
            clusterer.spec_next_block() == 0,
            clusterer.histograms() == Seq::<HistogramView>::empty(),
            clusterer.sizes() == Seq::<u32>::empty(),
            clusterer.symbols() == Seq::<u32>::empty(),
            clusterer.spec_remap() == Seq::new(64, |i: int| 0u32),
    {
        let block_lengths = super::block_lengths::block_lengths(block_ids, length, num_blocks);
        assert(block_lengths@.take(0) =~= Seq::empty());
        let clusterer = BlockClusterer {
            block_lengths,
            next_block: 0,
            pos: 0,
            all_histograms: Vec::new(),
            cluster_size: Vec::new(),
            histogram_symbols: Vec::new(),
            remap: [0; 64],
        };
        assert(clusterer.remap@ =~= Seq::new(64, |i: int| 0u32));
        assert(clusterer.histograms() =~= Seq::empty());
        clusterer
    }

    /// The histograms of the next batch of blocks.
    pub fn batch<T: Symbol>(&self, data: &[T], size: usize) -> (histograms: Vec<Histogram>)
        requires
            self.wf(),
            super::entropy_codes::within(
                data@,
                super::block_lengths::total(self.lengths()) as int,
                size as nat,
            ),
        ensures
            histograms@.len() == self.batch_size(),
            forall|j: int|
                0 <= j < histograms@.len() ==> (#[trigger] histograms@[j])@ == block_histogram(
                    data@,
                    self.lengths(),
                    self.spec_next_block() + j,
                    size as nat,
                ),
    {
        let left: usize = self.block_lengths.len() - self.next_block;
        let num_to_combine: usize = if left < HISTOGRAMS_PER_BATCH {
            left
        } else {
            HISTOGRAMS_PER_BATCH
        };
        let mut histograms: Vec<Histogram> = Vec::new();
        let mut pos: usize = self.pos;
        let mut j: usize = 0;
        while j < num_to_combine
            invariant
                self.wf(),
                super::entropy_codes::within(
                    data@,
                    super::block_lengths::total(self.block_lengths@) as int,
                    size as nat,
                ),
                j <= num_to_combine,
                num_to_combine == self.batch_size(),
                self.block_lengths@.len() <= usize::MAX,
                pos == block_start(self.block_lengths@, self.next_block + j),
                histograms@.len() == j,
                forall|k: int|
                    0 <= k < j ==> (#[trigger] histograms@[k])@ == block_histogram(
                        data@,
                        self.block_lengths@,
                        self.next_block + k,
                        size as nat,
                    ),
            decreases num_to_combine - j,
        {
            let (histogram, end) = count_block(
                data,
                &self.block_lengths,
                self.next_block + j,
                pos,
                size,
            );
            histograms.push(histogram);
            pos = end;
            j += 1;
        }
        histograms
    }

    /// Takes back how the batch was combined: its clusters join those of earlier batches, and its
    /// blocks get the numbers that their clusters have there.
    pub fn take_combined(&mut self, combined: &Combined)
        requires
            old(self).wf(),
            combined.symbols@.len() >= old(self).batch_size(),
            forall|j: int|
                0 <= j < old(self).batch_size() ==> #[trigger] combined.symbols@[j] < 64,
            combined.clusters@.len() <= 64,
            forall|j: int|
                0 <= j < combined.clusters@.len() ==> #[trigger] combined.clusters@[j] < 64
                    && combined.clusters@[j] < combined.histograms@.len() && combined.clusters@[j]
                    < combined.sizes@.len(),
            old(self).sizes().len() + combined.clusters@.len() <= old(
                self,
            ).lengths().len(),
        ensures
            final(self).wf(),
            final(self).lengths() == old(self).lengths(),
            final(self).spec_next_block() == old(self).spec_next_block() + old(self).batch_size(),
            final(self).histograms()
                == old(self).histograms() + Seq::new(
                combined.clusters@.len(),
                |j: int| combined.histograms@[combined.clusters@[j] as int]@,
            ),
            final(self).sizes() == old(self).sizes() + Seq::new(
                combined.clusters@.len(),
                |j: int| combined.sizes@[combined.clusters@[j] as int],
            ),
            final(self).spec_remap() == renumbered(
                old(self).spec_remap(),
                combined.clusters@,
                combined.clusters@.len() as int,
            ),
            final(self).symbols() == old(self).symbols() + Seq::new(
                old(self).batch_size() as nat,
                |j: int|
                    (old(self).histograms().len() as u32).wrapping_add(
                        final(self).spec_remap()[combined.symbols@[j] as int],
                    ),
            ),
    {
        let left: usize = self.block_lengths.len() - self.next_block;
        let num_to_combine: usize = if left < HISTOGRAMS_PER_BATCH {
            left
        } else {
            HISTOGRAMS_PER_BATCH
        };
        #[verifier::truncate]
        let num_clusters: u32 = self.all_histograms.len() as u32;
        let num_new_clusters: usize = combined.clusters.len();
        let mut j: usize = 0;
        while j < num_new_clusters
            invariant
                old(self).wf(),
                j <= num_new_clusters <= 64,
                num_new_clusters == combined.clusters@.len(),
                self.block_lengths@ == old(self).block_lengths@,
                self.next_block == old(self).next_block,
                self.pos == old(self).pos,
                self.histogram_symbols@ == old(self).histogram_symbols@,
                forall|k: int|
                    0 <= k < combined.clusters@.len() ==> #[trigger] combined.clusters@[k] < 64
                        && combined.clusters@[k] < combined.histograms@.len()
                        && combined.clusters@[k] < combined.sizes@.len(),
                super::entropy_codes::views(self.all_histograms@) == super::entropy_codes::views(
                    old(self).all_histograms@,
                ) + Seq::new(
                    j as nat,
                    |k: int| combined.histograms@[combined.clusters@[k] as int]@,
                ),
                self.cluster_size@ == old(self).cluster_size@ + Seq::new(
                    j as nat,
                    |k: int| combined.sizes@[combined.clusters@[k] as int],
                ),
                self.remap@ == renumbered(old(self).remap@, combined.clusters@, j as int),
            decreases num_new_clusters - j,
        {
            let cluster: usize = combined.clusters[j] as usize;
            let ghost before = super::entropy_codes::views(self.all_histograms@);
            let histogram = combined.histograms[cluster].duplicate();
            self.all_histograms.push(histogram);
            self.cluster_size.push(combined.sizes[cluster]);
            self.remap[cluster] = j as u32;
            proof {
                assert(super::entropy_codes::views(self.all_histograms@) =~= before.push(
                    combined.histograms@[cluster as int]@,
                ));
                assert(super::entropy_codes::views(self.all_histograms@)
                    =~= super::entropy_codes::views(old(self).all_histograms@) + Seq::new(
                    (j + 1) as nat,
                    |k: int| combined.histograms@[combined.clusters@[k] as int]@,
                ));
                assert(self.cluster_size@ =~= old(self).cluster_size@ + Seq::new(
                    (j + 1) as nat,
                    |k: int| combined.sizes@[combined.clusters@[k] as int],
                ));
            }
            j += 1;
        }
        proof {
            assert(super::entropy_codes::views(self.all_histograms@).len() == old(
                self,
            ).all_histograms@.len() + num_new_clusters);
            super::block_lengths::lemma_total_take(self.block_lengths@, self.next_block as int);
        }
        j = 0;
        while j < num_to_combine
            invariant
                old(self).wf(),
                j <= num_to_combine,
                num_to_combine == old(self).batch_size(),
                self.block_lengths@.len() <= usize::MAX,
                num_clusters == old(self).all_histograms@.len() as u32,
                self.block_lengths@ == old(self).block_lengths@,
                self.next_block == old(self).next_block,
                combined.symbols@.len() >= num_to_combine,
                forall|k: int| 0 <= k < num_to_combine ==> #[trigger] combined.symbols@[k] < 64,
                self.cluster_size@.len() == self.all_histograms@.len(),
                super::entropy_codes::views(self.all_histograms@) == super::entropy_codes::views(
                    old(self).all_histograms@,
                ) + Seq::new(
                    combined.clusters@.len(),
                    |k: int| combined.histograms@[combined.clusters@[k] as int]@,
                ),
                self.cluster_size@ == old(self).cluster_size@ + Seq::new(
                    combined.clusters@.len(),
                    |k: int| combined.sizes@[combined.clusters@[k] as int],
                ),
                self.remap@ == renumbered(
                    old(self).remap@,
                    combined.clusters@,
                    combined.clusters@.len() as int,
                ),
                self.pos == block_start(self.block_lengths@, self.next_block + j),
                self.pos <= super::block_lengths::total(self.block_lengths@),
                super::block_lengths::total(self.block_lengths@) <= usize::MAX,
                self.histogram_symbols@ == old(self).histogram_symbols@ + Seq::new(
                    j as nat,
                    |k: int| num_clusters.wrapping_add(self.remap@[combined.symbols@[k] as int]),
                ),
            decreases num_to_combine - j,
        {
            let symbol: usize = combined.symbols[j] as usize;
            self.histogram_symbols.push(num_clusters.wrapping_add(self.remap[symbol]));
            proof {
                super::block_lengths::lemma_total_take(self.block_lengths@, self.next_block + j);
                super::block_lengths::lemma_total_take(
                    self.block_lengths@,
                    self.next_block + j + 1,
                );
                assert(self.histogram_symbols@ =~= old(self).histogram_symbols@ + Seq::new(
                    (j + 1) as nat,
                    |k: int| num_clusters.wrapping_add(self.remap@[combined.symbols@[k] as int]),
                ));
            }
            self.pos = self.pos + self.block_lengths[self.next_block + j] as usize;
            j += 1;
        }
        self.next_block = self.next_block + num_to_combine;
    }
}

/// How many pairs of `num_clusters` histograms are looked at when all batches are combined.
pub fn max_pairs(num_clusters: usize) -> (pairs: usize)
    ensures
        pairs == {
            let by_batch = HISTOGRAMS_PER_BATCH.wrapping_mul(num_clusters);
            let all = (num_clusters / 2).wrapping_mul(num_clusters);
            if by_batch <= all {
                by_batch
            } else {
                all
            }
        },
{
    let by_batch: usize = HISTOGRAMS_PER_BATCH.wrapping_mul(num_clusters);
    let all: usize = (num_clusters / 2).wrapping_mul(num_clusters);
    if by_batch <= all {
        by_batch
    } else {
        all
    }
}

/// The cluster whose bits are fewest and fewer than `ceiling`, the first of those that are.
pub fn cheapest_cluster(bits: &[u64], ceiling: u64) -> (cheapest: Option<usize>)
    ensures
        match cheapest {
            Some(k) => super::find_blocks::is_cheapest(bits@, ceiling, k as int),
            None => super::find_blocks::none_below(bits@, ceiling),
        },
{
    let mut best: u64 = ceiling;
    let mut cheapest: Option<usize> = None;
    let mut k: usize = 0;
    while k < bits.len()
        invariant
            k <= bits@.len(),
            match cheapest {
                Some(c) => super::find_blocks::is_cheapest(
                    bits@.take(k as int),
                    ceiling,
                    c as int,
                ) && best == bits@[c as int],
                None => super::find_blocks::none_below(bits@.take(k as int), ceiling) && best
                    == ceiling,
            },
        decreases bits@.len() - k,
    {
        let ghost seen = bits@.take(k as int);
        let ghost more = bits@.take(k + 1);
        assert forall|j: int| 0 <= j < seen.len() implies #[trigger] seen[j] == more[j] by {}
        assert forall|j: int| 0 <= j < more.len() implies #[trigger] more[j] == if j < k {
            seen[j]
        } else {
            bits@[k as int]
        } by {}
        if bits[k] < best {
            best = bits[k];
            cheapest = Some(k);
        }
        k += 1;
    }
    assert(bits@.take(k as int) =~= bits@);
    cheapest
}

/// The last stage of clustering: the blocks get their clusters for good.
#[derive(Debug)]
pub struct ClusterChoice {
    block_lengths: Vec<u32>,
    next_block: usize,
    pos: usize,
    all_histograms: Vec<Histogram>,
    histogram_symbols: Vec<u32>,
    clusters: Vec<u32>,
    new_index: Vec<u32>,
    next_index: u32,
}

impl ClusterChoice {
    /// The lengths of the blocks.
    pub closed spec fn lengths(&self) -> Seq<u32> {
        self.block_lengths@
    }

    /// The next block that gets its cluster.
    pub closed spec fn spec_next_block(&self) -> int {
        self.next_block as int
    }

    /// The histograms that the clusters name.
    pub closed spec fn histograms(&self) -> Seq<HistogramView> {
        super::entropy_codes::views(self.all_histograms@)
    }

    /// The clusters of the blocks: for good up to the next block, and from there on as combining left
    /// them.
    pub closed spec fn symbols(&self) -> Seq<u32> {
        self.histogram_symbols@
    }

    /// The clusters that are left.
    pub closed spec fn spec_clusters(&self) -> Seq<u32> {
        self.clusters@
    }

    /// How many clusters there were before the last were combined.
    pub closed spec fn spec_num_clusters(&self) -> nat {
        self.new_index@.len()
    }

    /// The next block that gets its cluster.
    pub fn next_block(&self) -> (next_block: usize)
        ensures
            next_block == self.spec_next_block(),
    {
        self.next_block
    }

    /// The histograms that the clusters name.
    pub fn all_histograms(&self) -> (histograms: &Vec<Histogram>)
        ensures
            super::entropy_codes::views(histograms@) == self.histograms(),
    {
        &self.all_histograms
    }

    /// The clusters that are left.
    pub fn clusters(&self) -> (clusters: &Vec<u32>)
        ensures
            clusters@ == self.spec_clusters(),
    {
        &self.clusters
    }

    /// The clusters that the blocks before `next_block` got.
    pub open spec fn chosen(&self) -> Seq<u32> {
        self.symbols().take(self.spec_next_block())
    }

    /// Every cluster that is named exists. Those that blocks got are among the ones that are left, but
    /// for that of the first block, which others may share, and they are numbered in the order in which
    /// they came up.
    pub closed spec fn wf(&self) -> bool {
        &&& self.next_block <= self.block_lengths@.len()
        &&& super::block_lengths::total(self.block_lengths@) <= usize::MAX
        &&& self.pos == block_start(self.block_lengths@, self.next_block as int)
        &&& self.histogram_symbols@.len() == self.block_lengths@.len()
        &&& self.new_index@.len() < kInvalidIndex
        &&& forall|i: int|
            0 <= i < self.histogram_symbols@.len() ==> #[trigger] self.histogram_symbols@[i]
                < self.new_index@.len()
        &&& forall|i: int|
            0 <= i < self.clusters@.len() ==> #[trigger] self.clusters@[i] < self.new_index@.len()
        &&& forall|i: int|
            0 <= i < self.next_block ==> self.clusters@.contains(
                #[trigger] self.histogram_symbols@[i],
            ) || self.histogram_symbols@[i] == self.histogram_symbols@[0]
        &&& self.next_index == super::remap::first_use(self.chosen()).len()
        &&& forall|c: u32|
            c < self.new_index@.len() ==> #[trigger] self.new_index@[c as int] == if self.chosen().contains(
            c) {
                super::remap::use_rank(self.chosen(), c)
            } else {
                kInvalidIndex as int
            }
    }

    /// Starts with what the first stage left after it was combined once more. Of `combined`, the
    /// histograms stand in place of those of the first stage.
    pub fn new(clusterer: BlockClusterer, combined: Combined) -> (choice: ClusterChoice)
        requires
            clusterer.wf(),
            clusterer.spec_next_block() == clusterer.lengths().len(),
            clusterer.histograms().len() < kInvalidIndex,
            combined.symbols@.len() == clusterer.lengths().len(),
            forall|i: int|
                0 <= i < combined.symbols@.len() ==> #[trigger] combined.symbols@[i]
                    < clusterer.histograms().len(),
            forall|i: int|
                0 <= i < combined.clusters@.len() ==> #[trigger] combined.clusters@[i]
                    < clusterer.histograms().len(),
        ensures
            choice.wf(),
            choice.lengths() == clusterer.lengths(),
            choice.spec_next_block() == 0,
            choice.histograms() == super::entropy_codes::views(combined.histograms@),
            choice.symbols() == combined.symbols@,
            choice.spec_clusters() == combined.clusters@,
            choice.spec_num_clusters() == clusterer.histograms().len(),
    {
        let new_index: Vec<u32> = vec![kInvalidIndex; clusterer.all_histograms.len()];
        let choice = ClusterChoice {
            block_lengths: clusterer.block_lengths,
            next_block: 0,
            pos: 0,
            all_histograms: combined.histograms,
            histogram_symbols: combined.symbols,
            clusters: combined.clusters,
            new_index,
            next_index: 0,
        };
        assert(choice.block_lengths@.take(0) =~= Seq::empty());
        assert(choice.chosen() =~= Seq::empty());
        choice
    }

    /// The histogram of the next block.
    pub fn block<T: Symbol>(&self, data: &[T], size: usize) -> (histogram: Histogram)
        requires
            self.wf(),
            self.spec_next_block() < self.lengths().len(),
            super::entropy_codes::within(
                data@,
                super::block_lengths::total(self.lengths()) as int,
                size as nat,
            ),
        ensures
            histogram@ == block_histogram(
                data@,
                self.lengths(),
                self.spec_next_block(),
                size as nat,
            ),
    {
        let (histogram, _end) = count_block(
            data,
            &self.block_lengths,
            self.next_block,
            self.pos,
            size,
        );
        histogram
    }

    /// The cluster that the next block falls back on: that of the block before it.
    pub open spec fn spec_fallback(&self) -> u32 {
        if self.spec_next_block() == 0 {
            self.symbols()[0]
        } else {
            self.symbols()[self.spec_next_block() - 1]
        }
    }

    /// The cluster that the next block falls back on.
    pub fn fallback(&self) -> (cluster: u32)
        requires
            self.wf(),
            self.spec_next_block() < self.lengths().len(),
        ensures
            cluster == self.spec_fallback(),
            cluster < self.spec_num_clusters(),
    {
        if self.next_block == 0 {
            self.histogram_symbols[0]
        } else {
            self.histogram_symbols[self.next_block - 1]
        }
    }

    /// Gives the next block a cluster: `bits[k]` is the key of what coding the block with cluster `k`
    /// of those that are left costs, `fallback_bits` what the cluster of the block before costs. That
    /// one stays unless another is cheaper.
    pub fn assign(&mut self, fallback_bits: u64, bits: &[u64])
        requires
            old(self).wf(),
            old(self).spec_next_block() < old(self).lengths().len(),
            bits@.len() == old(self).spec_clusters().len(),
        ensures
            final(self).wf(),
            final(self).lengths() == old(self).lengths(),
            final(self).histograms() == old(self).histograms(),
            final(self).spec_clusters() == old(self).spec_clusters(),
            final(self).spec_num_clusters() == old(self).spec_num_clusters(),
            final(self).spec_next_block() == old(self).spec_next_block() + 1,
            final(self).symbols().len() == old(self).symbols().len(),
            forall|i: int|
                0 <= i < old(self).symbols().len() && i != old(self).spec_next_block()
                    ==> #[trigger] final(self).symbols()[i] == old(
                    self,
                ).symbols()[i],
            ({
                let cluster = final(self).symbols()[old(self).spec_next_block()];
                if super::find_blocks::none_below(bits@, fallback_bits) {
                    cluster == old(self).spec_fallback()
                } else {
                    exists|k: int|
                        #[trigger] super::find_blocks::is_cheapest(bits@, fallback_bits, k)
                            && cluster == old(self).spec_clusters()[k]
                }
            }),
    {
        let ghost before = self.chosen();
        let mut best_out: u32 = self.fallback();
        match cheapest_cluster(bits, fallback_bits) {
            Some(k) => {
                best_out = self.clusters[k];
                assert(self.clusters@.contains(best_out));
                assert(super::find_blocks::is_cheapest(bits@, fallback_bits, k as int));
                assert(bits@[k as int] < fallback_bits);
            },
            None => {},
        }
        let block: usize = self.next_block;
        assert(self.block_lengths.len() <= usize::MAX);
        self.histogram_symbols[block] = best_out;
        proof {
            super::block_lengths::lemma_total_take(self.block_lengths@, block as int);
            super::block_lengths::lemma_total_take(self.block_lengths@, block + 1);
        }
        self.pos = self.pos + self.block_lengths[block] as usize;
        self.next_block = block + 1;
        let ghost after = self.chosen();
        proof {
            assert(after =~= before.push(best_out));
            assert(after.drop_last() =~= before);
            assert(after.take(block as int) =~= before);
            super::remap::lemma_first_use(before);
            super::remap::lemma_first_use(after);
            super::remap::lemma_ranks_fit(before, self.new_index@.len());
            super::remap::lemma_ranks_fit(after, self.new_index@.len());
            assert(after[block as int] == best_out);
            assert forall|c: u32| before.contains(c) implies after.contains(c)
                && super::remap::use_rank(after, c) == super::remap::use_rank(before, c) && 0
                <= super::remap::use_rank(before, c) < kInvalidIndex by {
                super::remap::lemma_rank_stays(after, block as int, c);
                let j = before.index_of(c);
                assert(after[j] == c);
            }
            assert forall|c: u32| after.contains(c) && c != best_out implies before.contains(c) by {
                let j = after.index_of(c);
                assert(before[j] == c);
            }
        }
        if self.new_index[best_out as usize] == kInvalidIndex {
            proof {
                assert(!before.contains(best_out));
                let all = super::remap::first_use(after);
                assert(!super::remap::first_use(before).contains(best_out));
                assert(all == super::remap::first_use(before).push(best_out));
                assert(all[self.next_index as int] == best_out);
                assert(all.contains(best_out));
                let r = all.index_of(best_out);
                assert(all[r] == all[self.next_index as int]);
                assert(r == self.next_index);
            }
            let index: u32 = self.next_index;
            self.new_index[best_out as usize] = index;
            self.next_index = index + 1;
        }
    }

    /// The blocks can have no more types than can be told apart: so many clusters are left, with that of
    /// the first block.
    pub open spec fn types_fit(&self) -> bool {
        if self.spec_clusters().contains(self.symbols()[0]) {
            self.spec_clusters().len() <= MAX_BLOCK_TYPES
        } else {
            self.spec_clusters().len() < MAX_BLOCK_TYPES
        }
    }

    /// What the split looks like once every block has its cluster, as long as few enough clusters are
    /// left: neighbours have different types, the types come up in the order of their numbers, there are
    /// as many as the split says and no more than can be told apart, and the lengths sum to those of the
    /// blocks.
    pub proof fn lemma_choice_shape(&self)
        requires
            self.wf(),
            self.spec_next_block() == self.lengths().len(),
            self.lengths().len() > 0,
            self.types_fit(),
            super::block_lengths::total(self.lengths()) <= u32::MAX,
        ensures
            super::remap::first_use(self.symbols()).len() <= MAX_BLOCK_TYPES,
            ({
                let types = block_types_of(self.symbols(), self.lengths());
                &&& forall|i: int| 0 < i < types.len() ==> #[trigger] types[i] != types[i - 1]
                &&& super::remap::first_use(types) == Seq::new(
                    super::remap::first_use(self.symbols()).len(),
                    |k: int| k as u8,
                )
                &&& most(types) + 1 == super::remap::first_use(self.symbols()).len()
            }),
            super::block_lengths::total(
                super::block_lengths::merged(self.symbols(), self.lengths()).lengths,
            ) == super::block_lengths::total(self.lengths()),
    {
        let symbols = self.histogram_symbols@;
        let used = super::remap::first_use(symbols);
        let first = symbols[0];
        let candidates = if self.clusters@.contains(first) {
            self.clusters@
        } else {
            self.clusters@.push(first)
        };
        super::remap::lemma_first_use(symbols);
        assert forall|i: int| 0 <= i < used.len() implies candidates.contains(#[trigger] used[i]) by {
            assert(used.contains(used[i]));
            let j = symbols.index_of(used[i]);
            if self.clusters@.contains(symbols[j]) {
                let k = self.clusters@.index_of(symbols[j]);
                assert(candidates[k] == used[i]);
            } else {
                assert(symbols[j] == first);
                assert(candidates[self.clusters@.len() as int] == first);
            }
        }
        super::remap::lemma_distinct_among(used, candidates);
        lemma_split_shape(symbols, self.block_lengths@);
    }

    /// Writes the split: neighbours with the same cluster become one block, and the type of a block
    /// is the number that its cluster got by first use.
    pub fn finish(self, split: &mut BlockSplit)
        requires
            self.wf(),
            self.spec_next_block() == self.lengths().len(),
            self.lengths().len() <= usize::MAX / 2,
        ensures
            final(split).wf(),
            final(split).block_types() == block_types_of(
                self.symbols(),
                self.lengths(),
            ),
            final(split).block_lengths() == super::block_lengths::merged(
                self.symbols(),
                self.lengths(),
            ).lengths,
            final(split).num_types == most(final(split).block_types()) + 1,
            final(split).types@.len() == crate::block_split::grown_size(
                old(split).types@.len(),
                self.lengths().len(),
            ),
            final(split).lengths@.len() == crate::block_split::grown_size(
                old(split).lengths@.len(),
                self.lengths().len(),
            ),
            final(split).keeps_room(old(split)),
    {
        let num_blocks: usize = self.block_lengths.len();
        split.reserve(num_blocks);
        let ghost symbols = self.histogram_symbols@;
        let ghost lengths = self.block_lengths@;
        let ghost types_len = split.types@.len();
        let ghost lengths_len = split.lengths@.len();
        let mut cur_length: u32 = 0;
        let mut block_idx: usize = 0;
        let mut max_type: u8 = 0;
        let mut i: usize = 0;
        proof {
            assert(self.chosen() =~= symbols);
            assert(symbols.take(0) =~= Seq::empty());
            lemma_at_block_start(symbols, lengths, split.types@.take(0), split.lengths@.take(0));
        }
        while i < num_blocks
            invariant
                self.wf(),
                self.chosen() == symbols,
                symbols == self.histogram_symbols@,
                lengths == self.block_lengths@,
                num_blocks == lengths.len(),
                num_blocks == symbols.len(),
                i <= num_blocks,
                block_idx <= i,
                split.types@.len() == types_len,
                split.lengths@.len() == lengths_len,
                types_len >= num_blocks,
                lengths_len >= num_blocks,
                forall|j: int|
                    block_idx <= j < types_len ==> #[trigger] split.types@[j] == if j < old(
                        split,
                    ).types@.len() {
                        old(split).types@[j]
                    } else {
                        0
                    },
                forall|j: int|
                    block_idx <= j < lengths_len ==> #[trigger] split.lengths@[j] == if j < old(
                        split,
                    ).lengths@.len() {
                        old(split).lengths@[j]
                    } else {
                        0
                    },
                at_block(
                    symbols,
                    lengths,
                    i as int,
                    split.types@.take(block_idx as int),
                    split.lengths@.take(block_idx as int),
                    cur_length,
                ),
                max_type == most(split.types@.take(block_idx as int)),
            decreases num_blocks - i,
        {
            let ghost types_before = split.types@.take(block_idx as int);
            let ghost lengths_before = split.lengths@.take(block_idx as int);
            let ghost length_before = cur_length;
            proof {
                lemma_at_block_step(
                    symbols,
                    lengths,
                    i as int,
                    types_before,
                    lengths_before,
                    length_before,
                );
            }
            cur_length = cur_length.wrapping_add(self.block_lengths[i]);
            if i + 1 == num_blocks || self.histogram_symbols[i] != self.histogram_symbols[i + 1] {
                let symbol: usize = self.histogram_symbols[i] as usize;
                let index: u32 = self.new_index[symbol];
                #[verifier::truncate]
                let id: u8 = index as u8;
                proof {
                    assert(symbols[i as int] == symbol);
                    assert(symbols.contains(symbol as u32));
                    super::remap::lemma_first_use(symbols);
                    assert(self.new_index@[symbol as u32 as int] == super::remap::use_rank(
                        symbols,
                        symbol as u32,
                    ));
                    super::remap::lemma_ranks_fit(symbols, self.new_index@.len());
                }
                split.types[block_idx] = id;
                split.lengths[block_idx] = cur_length;
                if id > max_type {
                    max_type = id;
                }
                cur_length = 0;
                block_idx += 1;
                proof {
                    assert(split.types@.take(block_idx as int) =~= types_before.push(id));
                    assert(split.lengths@.take(block_idx as int) =~= lengths_before.push(
                        length_before.wrapping_add(lengths[i as int]),
                    ));
                    assert(split.types@.take(block_idx as int).drop_last() =~= types_before);
                }
            }
            i += 1;
        }
        split.num_blocks = block_idx;
        split.num_types = max_type as usize + 1;
        proof {
            assert(symbols.take(i as int) =~= symbols);
            assert(lengths.take(i as int) =~= lengths);
            assert(split.block_types() =~= split.types@.take(block_idx as int));
            assert(split.block_lengths() =~= split.lengths@.take(block_idx as int));
        }
    }
}

/// The types of the merged blocks: the numbers of their clusters, as bytes.
pub open spec fn block_types_of(symbols: Seq<u32>, lengths: Seq<u32>) -> Seq<u8> {
    super::block_lengths::merged(symbols, lengths).symbols.map_values(
        |symbol: u32| super::remap::use_rank(symbols, symbol) as u8,
    )
}

/// The largest of `types`, or zero where there is none.
pub open spec fn most(types: Seq<u8>) -> u8
    decreases types.len(),
{
    if types.len() == 0 {
        0
    } else if types.last() > most(types.drop_last()) {
        types.last()
    } else {
        most(types.drop_last())
    }
}

/// Writing a split has come to block `i`: what is written, with the length that has piled up behind
/// it, are the merged blocks before `i`.
spec fn at_block(
    symbols: Seq<u32>,
    lengths: Seq<u32>,
    i: int,
    types: Seq<u8>,
    written: Seq<u32>,
    piled: u32,
) -> bool {
    let before = super::block_lengths::merged(symbols.take(i), lengths.take(i));
    let ids = before.symbols.map_values(
        |symbol: u32| super::remap::use_rank(symbols, symbol) as u8,
    );
    if 0 < i < symbols.len() && symbols[i - 1] == symbols[i] {
        &&& before.lengths == written.push(piled)
        &&& ids == types.push(super::remap::use_rank(symbols, symbols[i]) as u8)
    } else {
        &&& before.lengths == written
        &&& ids == types
        &&& piled == 0
    }
}

proof fn lemma_at_block_start(
    symbols: Seq<u32>,
    lengths: Seq<u32>,
    types: Seq<u8>,
    written: Seq<u32>,
)
    requires
        types.len() == 0,
        written.len() == 0,
    ensures
        at_block(symbols, lengths, 0, types, written, 0),
{
    let before = super::block_lengths::merged(symbols.take(0), lengths.take(0));
    assert(before.lengths =~= written);
    assert(before.symbols.map_values(
        |symbol: u32| super::remap::use_rank(symbols, symbol) as u8,
    ) =~= types);
}

proof fn lemma_at_block_step(
    symbols: Seq<u32>,
    lengths: Seq<u32>,
    i: int,
    types: Seq<u8>,
    written: Seq<u32>,
    piled: u32,
)
    requires
        0 <= i < symbols.len(),
        symbols.len() == lengths.len(),
        at_block(symbols, lengths, i, types, written, piled),
    ensures
        ({
            let after = super::block_lengths::merged(symbols.take(i + 1), lengths.take(i + 1));
            &&& after.lengths == written.push(piled.wrapping_add(lengths[i]))
            &&& after.symbols.map_values(
                |symbol: u32| super::remap::use_rank(symbols, symbol) as u8,
            ) == types.push(super::remap::use_rank(symbols, symbols[i]) as u8)
        }),
{
    let id = |symbol: u32| super::remap::use_rank(symbols, symbol) as u8;
    let before = super::block_lengths::merged(symbols.take(i), lengths.take(i));
    let after = super::block_lengths::merged(symbols.take(i + 1), lengths.take(i + 1));
    assert(symbols.take(i + 1).drop_last() =~= symbols.take(i));
    assert(lengths.take(i + 1).take(i) =~= lengths.take(i));
    super::block_lengths::lemma_merged_symbols(symbols.take(i), lengths.take(i));
    if i > 0 && symbols[i - 1] == symbols[i] {
        assert(after.lengths =~= written.push(piled.wrapping_add(lengths[i])));
        assert(after.symbols.map_values(id) =~= types.push(id(symbols[i])));
    } else {
        assert(after.lengths =~= written.push(lengths[i]));
        assert(after.symbols.map_values(id) =~= types.push(id(symbols[i])));
    }
}

/// The largest type is one of them, and no other is larger.
pub proof fn lemma_most(types: Seq<u8>)
    ensures
        forall|i: int| 0 <= i < types.len() ==> #[trigger] types[i] <= most(types),
        types.len() > 0 ==> types.contains(most(types)),
    decreases types.len(),
{
    if types.len() > 0 {
        let rest = types.drop_last();
        lemma_most(rest);
        assert forall|i: int| 0 <= i < types.len() implies #[trigger] types[i] <= most(types) by {
            if i < rest.len() {
                assert(rest[i] == types[i]);
            }
        }
        if types.last() > most(rest) || rest.len() == 0 {
            assert(types[types.len() - 1] == most(types));
        } else {
            let j = rest.index_of(most(rest));
            assert(types[j] == most(types));
        }
    }
}

/// What a split looks like as long as there are no more types than can be told apart: neighbours have
/// different types, the types come up in the order of their numbers, there are as many as the split
/// says, and the lengths sum to those of the blocks that were merged.
pub proof fn lemma_split_shape(symbols: Seq<u32>, lengths: Seq<u32>)
    requires
        symbols.len() == lengths.len(),
        symbols.len() > 0,
        super::remap::first_use(symbols).len() <= MAX_BLOCK_TYPES,
        super::block_lengths::total(lengths) <= u32::MAX,
    ensures
        forall|i: int|
            0 < i < block_types_of(symbols, lengths).len() ==> #[trigger] block_types_of(
                symbols,
                lengths,
            )[i] != block_types_of(symbols, lengths)[i - 1],
        super::remap::first_use(block_types_of(symbols, lengths)) == Seq::new(
            super::remap::first_use(symbols).len(),
            |k: int| k as u8,
        ),
        most(block_types_of(symbols, lengths)) + 1 == super::remap::first_use(symbols).len(),
        super::block_lengths::total(super::block_lengths::merged(symbols, lengths).lengths)
            == super::block_lengths::total(lengths),
{
    let merged = super::block_lengths::merged(symbols, lengths).symbols;
    let types = block_types_of(symbols, lengths);
    let used = super::remap::first_use(symbols);
    super::block_lengths::lemma_merged_symbols(symbols, lengths);
    super::block_lengths::lemma_merged_total(symbols, lengths);
    super::block_lengths::lemma_merged_first_use(symbols, lengths);
    super::remap::lemma_first_use(symbols);
    super::remap::lemma_first_use(merged);
    assert forall|i: int| 0 <= i < merged.len() implies used.contains(#[trigger] merged[i]) && types[i]
        == used.index_of(merged[i]) by {
        assert(merged.contains(merged[i]));
        assert(used.contains(merged[i]));
    }
    assert forall|i: int| 0 < i < types.len() implies #[trigger] types[i] != types[i - 1] by {
        assert(merged[i] != merged[i - 1]);
        assert(used.contains(merged[i]) && used.contains(merged[i - 1]));
    }
    super::remap::lemma_ranks_in_order(merged, symbols, merged.len() as int);
    assert(merged.take(merged.len() as int) =~= merged);
    super::remap::lemma_first_use(types);
    lemma_most(types);
    let order = Seq::new(used.len(), |k: int| k as u8);
    assert(super::remap::first_use(types) == order);
    assert(order[used.len() - 1] == (used.len() - 1) as u8);
    assert(order.contains((used.len() - 1) as u8));
    assert(types.contains((used.len() - 1) as u8));
    let top = types.index_of((used.len() - 1) as u8);
    assert(types[top] == (used.len() - 1) as u8);
    assert(types.contains(most(types)));
    assert(order.contains(most(types)));
}

} // verus!
