//! Laws of giving blocks their types.
use crate::block_split::BlockSplit;
use crate::block_splitter::block_lengths::{merged, total};
use crate::block_splitter::cluster_blocks::{
    block_histogram, block_start, block_types_of, cheapest_cluster, max_pairs, most, renumbered,
    BlockClusterer, ClusterChoice, Combined, HISTOGRAMS_PER_BATCH, MAX_BLOCK_TYPES,
    MAX_PAIRS_PER_BATCH,
};
use crate::block_splitter::remap::{first_use, use_rank};
use crate::histogram::{Histogram, HistogramView, Symbol};
use crate::laws::blocks::{law_first_use, law_merged, spelled};
use crate::laws::histogram::{law_counts, occurrences};
use vstd::prelude::*;

verus! {

/// How much is combined at a time: sixty-four histograms, with a pair for each two of them, and at last
/// into no more than two hundred and fifty-six.
pub proof fn law_limits()
    ensures
        HISTOGRAMS_PER_BATCH == 64,
        MAX_PAIRS_PER_BATCH == 64 * 64 / 2,
        MAX_BLOCK_TYPES == 256,
{
}

/// The last combining may try a pair for each two clusters, but no more than sixty-four for each cluster.
pub proof fn law_max_pairs(n: usize, pairs: usize)
    requires
        n * n <= usize::MAX,
        64 * n <= usize::MAX,
        call_ensures(max_pairs, (n,), pairs),
    ensures
        pairs == 64 * n || pairs == (n / 2) * n,
        pairs <= 64 * n,
        pairs <= (n / 2) * n,
{
    assert(0 <= (n / 2) * n <= n * n) by (nonlinear_arith);
    let range = (usize::MAX + 1) as nat;
    vstd::arithmetic::div_mod::lemma_small_mod((64 * n) as nat, range);
    vstd::arithmetic::div_mod::lemma_small_mod(((n / 2) * n) as nat, range);
}

/// The cluster that codes a block in the fewest bits is chosen if it takes fewer than the ceiling, the
/// first of those that take as few; none is where no cluster does.
pub proof fn law_cheapest_cluster(bits: &[u64], ceiling: u64, cheapest: Option<usize>)
    requires
        call_ensures(cheapest_cluster, (bits, ceiling), cheapest),
    ensures
        cheapest is None <==> forall|j: int| 0 <= j < bits@.len() ==> #[trigger] bits@[j] >= ceiling,
        cheapest matches Some(k) ==> {
            &&& k < bits@.len()
            &&& bits@[k as int] < ceiling
            &&& forall|j: int| 0 <= j < bits@.len() ==> #[trigger] bits@[j] >= bits@[k as int]
            &&& forall|j: int| 0 <= j < k ==> #[trigger] bits@[j] > bits@[k as int]
        },
{
}

/// A block starts behind all blocks before it, and its histogram counts its own symbols.
pub proof fn law_block_histogram<T: Symbol>(
    data: Seq<T>,
    lengths: Seq<u32>,
    k: int,
    size: nat,
    at: int,
)
    requires
        0 <= k < lengths.len(),
        total(lengths) <= data.len(),
        forall|i: int| 0 <= i < total(lengths) ==> (#[trigger] data[i]).spec_bucket() < size,
        0 <= at < size,
    ensures
        block_start(lengths, 0) == 0,
        block_start(lengths, k + 1) == block_start(lengths, k) + lengths[k],
        ({
            let start = block_start(lengths, k);
            let histogram = block_histogram(data, lengths, k, size);
            &&& histogram.data.len() == size
            &&& histogram.total_count == lengths[k]
            &&& histogram.data[at] == occurrences(data.subrange(start, start + lengths[k]), at)
        }),
{
    assert(lengths.take(0) =~= Seq::empty());
    crate::block_splitter::block_lengths::lemma_total_take(lengths, k);
    crate::block_splitter::block_lengths::lemma_total_take(lengths, k + 1);
    let start = block_start(lengths, k);
    let items = data.subrange(start, start + lengths[k]);
    lemma_few_occurrences(items, at);
    law_counts(HistogramView::cleared(size), items, at);
}

proof fn lemma_few_occurrences<T: Symbol>(items: Seq<T>, at: int)
    ensures
        occurrences(items, at) <= items.len(),
    decreases items.len(),
{
    if items.len() > 0 {
        lemma_few_occurrences(items.drop_last(), at);
    }
}

/// A batch has the histograms of the next blocks, in order: all that are left, or sixty-four.
pub proof fn law_batch<T: Symbol>(
    clusterer: BlockClusterer,
    data: &[T],
    size: usize,
    histograms: Vec<Histogram>,
)
    requires
        clusterer.spec_next_block() <= clusterer.lengths().len(),
        call_ensures(BlockClusterer::batch::<T>, (&clusterer, data, size), histograms),
    ensures
        ({
            let left = clusterer.lengths().len() - clusterer.spec_next_block();
            histograms@.len() == if left < 64 {
                left
            } else {
                64
            }
        }),
        forall|j: int|
            0 <= j < histograms@.len() ==> (#[trigger] histograms@[j])@ == block_histogram(
                data@,
                clusterer.lengths(),
                clusterer.spec_next_block() + j,
                size as nat,
            ),
{
}

proof fn lemma_renumbered(remap: Seq<u32>, clusters: Seq<u32>, n: int, x: int)
    requires
        remap.len() == 64,
        0 <= n <= clusters.len() <= 64,
        forall|i: int| 0 <= i < clusters.len() ==> #[trigger] clusters[i] < 64,
        forall|i: int, j: int|
            0 <= i < j < clusters.len() ==> #[trigger] clusters[i] != #[trigger] clusters[j],
        0 <= x < n,
    ensures
        renumbered(remap, clusters, n).len() == 64,
        renumbered(remap, clusters, n)[clusters[x] as int] == x,
    decreases n,
{
    lemma_renumbered_len(remap, clusters, n - 1);
    if x < n - 1 {
        lemma_renumbered(remap, clusters, n - 1, x);
        assert(clusters[x] != clusters[n - 1]);
    }
    assert(clusters[n - 1] < 64);
}

proof fn lemma_renumbered_len(remap: Seq<u32>, clusters: Seq<u32>, n: int)
    requires
        remap.len() == 64,
        n <= clusters.len(),
        forall|i: int| 0 <= i < clusters.len() ==> #[trigger] clusters[i] < 64,
    ensures
        renumbered(remap, clusters, n).len() == 64,
    decreases n,
{
    if n > 0 {
        lemma_renumbered_len(remap, clusters, n - 1);
        assert(clusters[n - 1] < 64);
    }
}

/// A block of a batch is then in the cluster that holds the histogram which combining put it in: cluster
/// `x` of those that combining left, behind the clusters of earlier batches. What earlier batches left
/// stays.
pub proof fn law_take_combined(
    clusterer: &mut BlockClusterer,
    combined: Combined,
    j: int,
    x: int,
)
    requires
        old(clusterer).spec_remap().len() == 64,
        old(clusterer).symbols().len() == old(clusterer).spec_next_block(),
        combined.clusters@.len() <= 64,
        forall|i: int| 0 <= i < combined.clusters@.len() ==> #[trigger] combined.clusters@[i] < 64,
        forall|i: int, k: int|
            0 <= i < k < combined.clusters@.len() ==> #[trigger] combined.clusters@[i]
                != #[trigger] combined.clusters@[k],
        0 <= j < old(clusterer).lengths().len() - old(clusterer).spec_next_block(),
        j < 64,
        0 <= x < combined.clusters@.len(),
        combined.clusters@[x] == combined.symbols@[j],
        old(clusterer).histograms().len() + combined.clusters@.len() <= u32::MAX,
        call_ensures(BlockClusterer::take_combined, (clusterer, &combined), ()),
    ensures
        ({
            let block = old(clusterer).spec_next_block() + j;
            let cluster = final(clusterer).symbols()[block];
            &&& cluster == old(clusterer).histograms().len() + x
            &&& final(clusterer).histograms()[cluster as int]
                == combined.histograms@[combined.symbols@[j] as int]@
        }),
        forall|i: int|
            0 <= i < old(clusterer).symbols().len() ==> #[trigger] final(clusterer).symbols()[i]
                == old(clusterer).symbols()[i],
        forall|i: int|
            0 <= i < old(clusterer).histograms().len() ==> #[trigger] final(clusterer).histograms()[i]
                == old(clusterer).histograms()[i],
        final(clusterer).lengths() == old(clusterer).lengths(),
{
    lemma_renumbered(
        old(clusterer).spec_remap(),
        combined.clusters@,
        combined.clusters@.len() as int,
        x,
    );
}

/// A batch moves the clusterer on by the blocks that it had.
pub proof fn law_batch_done(clusterer: &mut BlockClusterer, combined: Combined)
    requires
        old(clusterer).spec_next_block() <= old(clusterer).lengths().len(),
        call_ensures(BlockClusterer::take_combined, (clusterer, &combined), ()),
    ensures
        ({
            let left = old(clusterer).lengths().len() - old(clusterer).spec_next_block();
            final(clusterer).spec_next_block() == if left < 64 {
                old(clusterer).lengths().len() as int
            } else {
                old(clusterer).spec_next_block() + 64
            }
        }),
        final(clusterer).histograms().len() == old(clusterer).histograms().len()
            + combined.clusters@.len(),
        final(clusterer).sizes().len() == old(clusterer).sizes().len() + combined.clusters@.len(),
        forall|x: int|
            0 <= x < combined.clusters@.len() ==> final(clusterer).histograms()[#[trigger] (old(
                clusterer).histograms().len() + x)]
                == combined.histograms@[combined.clusters@[x] as int]@,
        forall|x: int|
            0 <= x < old(clusterer).sizes().len() ==> #[trigger] final(clusterer).sizes()[x] == old(
                clusterer).sizes()[x],
        forall|x: int|
            0 <= x < combined.clusters@.len() ==> final(clusterer).sizes()[#[trigger] (old(
                clusterer).sizes().len() + x)] == combined.sizes@[combined.clusters@[x] as int],
{
}

proof fn lemma_renumbered_other(remap: Seq<u32>, clusters: Seq<u32>, n: int, c: int)
    requires
        remap.len() == 64,
        n <= clusters.len(),
        forall|i: int| 0 <= i < clusters.len() ==> #[trigger] clusters[i] < 64,
        forall|i: int| 0 <= i < clusters.len() ==> #[trigger] clusters[i] != c,
        0 <= c < 64,
    ensures
        renumbered(remap, clusters, n)[c] == remap[c],
    decreases n,
{
    if n > 0 {
        lemma_renumbered_other(remap, clusters, n - 1, c);
        lemma_renumbered_len(remap, clusters, n - 1);
        assert(clusters[n - 1] != c && clusters[n - 1] < 64);
    }
}

/// The number that a histogram of a batch got stays until a histogram with its place is left by another
/// batch, and goes into the cluster of every block that combining put there.
pub proof fn law_numbers_stay(clusterer: &mut BlockClusterer, combined: Combined, j: int, c: int)
    requires
        old(clusterer).spec_remap().len() == 64,
        old(clusterer).symbols().len() == old(clusterer).spec_next_block(),
        combined.clusters@.len() <= 64,
        forall|i: int| 0 <= i < combined.clusters@.len() ==> #[trigger] combined.clusters@[i] < 64,
        forall|i: int| 0 <= i < combined.clusters@.len() ==> #[trigger] combined.clusters@[i] != c,
        0 <= c < 64,
        0 <= j < old(clusterer).lengths().len() - old(clusterer).spec_next_block(),
        j < 64,
        combined.symbols@[j] == c,
        old(clusterer).histograms().len() + old(clusterer).spec_remap()[c] <= u32::MAX,
        call_ensures(BlockClusterer::take_combined, (clusterer, &combined), ()),
    ensures
        final(clusterer).spec_remap()[c] == old(clusterer).spec_remap()[c],
        final(clusterer).symbols()[old(clusterer).spec_next_block() + j] == old(
            clusterer).histograms().len() + old(clusterer).spec_remap()[c],
{
    lemma_renumbered_other(
        old(clusterer).spec_remap(),
        combined.clusters@,
        combined.clusters@.len() as int,
        c,
    );
}

/// A block stays in the cluster of the block before it, the first one in its own, unless some cluster
/// that is left codes it in fewer bits. Then it gets the one that codes it in the fewest, the first of
/// those. No other block changes.
pub proof fn law_assign(choice: &mut ClusterChoice, fallback_bits: u64, bits: &[u64], k: int)
    requires
        old(choice).spec_next_block() >= 0,
        call_ensures(ClusterChoice::assign, (choice, fallback_bits, bits), ()),
    ensures
        ({
            let block = old(choice).spec_next_block();
            let cluster = final(choice).symbols()[block];
            &&& (forall|j: int| 0 <= j < bits@.len() ==> #[trigger] bits@[j] >= fallback_bits)
                ==> cluster == if block == 0 {
                old(choice).symbols()[0]
            } else {
                old(choice).symbols()[block - 1]
            }
            &&& 0 <= k < bits@.len() && bits@[k] < fallback_bits && (forall|j: int|
                0 <= j < bits@.len() ==> #[trigger] bits@[j] >= bits@[k]) && (forall|j: int|
                0 <= j < k ==> #[trigger] bits@[j] > bits@[k]) ==> cluster == old(
                choice,
            ).spec_clusters()[k]
        }),
        final(choice).spec_next_block() == old(choice).spec_next_block() + 1,
        forall|i: int|
            0 <= i < old(choice).symbols().len() && i != old(choice).spec_next_block()
                ==> #[trigger] final(choice).symbols()[i] == old(choice).symbols()[i],
        final(choice).spec_clusters() == old(choice).spec_clusters(),
        final(choice).histograms() == old(choice).histograms(),
        final(choice).lengths() == old(choice).lengths(),
        final(choice).spec_num_clusters() == old(choice).spec_num_clusters(),
        final(choice).symbols().len() == old(choice).symbols().len(),
{
    let b = bits@;
    if 0 <= k < b.len() && b[k] < fallback_bits && (forall|j: int|
        0 <= j < b.len() ==> #[trigger] b[j] >= b[k]) && (forall|j: int|
        0 <= j < k ==> #[trigger] b[j] > b[k]) {
        let other = choose|other: int|
            #[trigger] crate::block_splitter::find_blocks::is_cheapest(b, fallback_bits, other)
                && final(choice).symbols()[old(choice).spec_next_block()] == old(
                choice,
            ).spec_clusters()[other];
        assert(b[other] <= b[k] && b[k] <= b[other]);
        if other < k {
            assert(b[other] > b[k]);
        }
    }
}

/// What is combined last takes the place of what the first stage left, and every block is to be looked
/// at again.
pub proof fn law_choice_starts(
    clusterer: BlockClusterer,
    combined: Combined,
    choice: ClusterChoice,
)
    requires
        call_ensures(ClusterChoice::new, (clusterer, combined), choice),
    ensures
        choice.spec_next_block() == 0,
        choice.lengths() == clusterer.lengths(),
        choice.symbols() == combined.symbols@,
        choice.spec_clusters() == combined.clusters@,
        choice.spec_num_clusters() == clusterer.histograms().len(),
        choice.histograms().len() == combined.histograms@.len(),
        forall|i: int|
            0 <= i < combined.histograms@.len() ==> #[trigger] choice.histograms()[i]
                == combined.histograms@[i]@,
{
}

/// What clustering tells of itself.
pub proof fn law_clusterer_shows(
    clusterer: BlockClusterer,
    lengths: &Vec<u32>,
    next_block: usize,
    histograms: &Vec<Histogram>,
    sizes: &Vec<u32>,
    symbols: &Vec<u32>,
)
    requires
        call_ensures(BlockClusterer::block_lengths, (&clusterer,), lengths),
        call_ensures(BlockClusterer::next_block, (&clusterer,), next_block),
        call_ensures(BlockClusterer::all_histograms, (&clusterer,), histograms),
        call_ensures(BlockClusterer::cluster_size, (&clusterer,), sizes),
        call_ensures(BlockClusterer::histogram_symbols, (&clusterer,), symbols),
    ensures
        lengths@ == clusterer.lengths(),
        next_block == clusterer.spec_next_block(),
        histograms@.len() == clusterer.histograms().len(),
        forall|i: int|
            0 <= i < histograms@.len() ==> (#[trigger] histograms@[i])@ == clusterer.histograms()[i],
        sizes@ == clusterer.sizes(),
        symbols@ == clusterer.symbols(),
{
    assert forall|i: int| 0 <= i < histograms@.len() implies (#[trigger] histograms@[i])@
        == clusterer.histograms()[i] by {
        assert(crate::block_splitter::entropy_codes::views(histograms@)[i] == histograms@[i]@);
    }
}

/// Clustering starts with the blocks that the ids make, and with no cluster.
pub proof fn law_clusterer_starts(
    block_ids: &[u8],
    length: usize,
    num_blocks: usize,
    clusterer: BlockClusterer,
    lengths: Vec<u32>,
)
    requires
        call_ensures(BlockClusterer::new, (block_ids, length, num_blocks), clusterer),
        call_ensures(
            crate::block_splitter::block_lengths::block_lengths,
            (block_ids, length, num_blocks),
            lengths,
        ),
    ensures
        clusterer.lengths() == lengths@,
        clusterer.spec_next_block() == 0,
        clusterer.histograms().len() == 0,
        clusterer.sizes().len() == 0,
        clusterer.symbols().len() == 0,
        clusterer.spec_remap().len() == 64,
        forall|c: int| 0 <= c < 64 ==> #[trigger] clusterer.spec_remap()[c] == 0,
{
}

/// What the choice of clusters tells of itself. The next block falls back on the cluster of the one
/// before it, the first one on its own.
pub proof fn law_choice_shows(
    choice: ClusterChoice,
    next_block: usize,
    histograms: &Vec<Histogram>,
    clusters: &Vec<u32>,
    fallback: u32,
)
    requires
        call_ensures(ClusterChoice::next_block, (&choice,), next_block),
        call_ensures(ClusterChoice::all_histograms, (&choice,), histograms),
        call_ensures(ClusterChoice::clusters, (&choice,), clusters),
        call_ensures(ClusterChoice::fallback, (&choice,), fallback),
    ensures
        next_block == choice.spec_next_block(),
        histograms@.len() == choice.histograms().len(),
        forall|i: int|
            0 <= i < histograms@.len() ==> (#[trigger] histograms@[i])@ == choice.histograms()[i],
        clusters@ == choice.spec_clusters(),
        next_block == 0 ==> fallback == choice.symbols()[0],
        next_block > 0 ==> fallback == choice.symbols()[next_block - 1],
{
    assert forall|i: int| 0 <= i < histograms@.len() implies (#[trigger] histograms@[i])@
        == choice.histograms()[i] by {
        assert(crate::block_splitter::entropy_codes::views(histograms@)[i] == histograms@[i]@);
    }
}

/// The histogram of the next block counts its symbols: those behind all blocks before it.
pub proof fn law_choice_block<T: Symbol>(
    choice: ClusterChoice,
    data: &[T],
    size: usize,
    histogram: Histogram,
    at: int,
)
    requires
        0 <= choice.spec_next_block() < choice.lengths().len(),
        total(choice.lengths()) <= data@.len(),
        forall|i: int|
            0 <= i < total(choice.lengths()) ==> (#[trigger] data@[i]).spec_bucket() < size,
        0 <= at < size,
        call_ensures(ClusterChoice::block::<T>, (&choice, data, size), histogram),
    ensures
        ({
            let k = choice.spec_next_block();
            let start = total(choice.lengths().take(k)) as int;
            let length = choice.lengths()[k];
            &&& histogram.data_@.len() == size
            &&& histogram.total_count_ == length
            &&& histogram.data_@[at] == occurrences(data@.subrange(start, start + length), at)
        }),
{
    law_block_histogram(data@, choice.lengths(), choice.spec_next_block(), size as nat, at);
}

/// The types of the blocks come up in the order of their numbers, each of which some block has. The room
/// behind the blocks stays as it was, and is zero where it is new.
pub proof fn law_finish_types(choice: ClusterChoice, split: &mut BlockSplit, i: int, t: int)
    requires
        choice.symbols().len() == choice.lengths().len(),
        choice.lengths().len() > 0,
        total(choice.lengths()) <= u32::MAX,
        first_use(choice.symbols()).len() <= 256,
        call_ensures(ClusterChoice::finish, (choice, split), ()),
    ensures
        0 <= i < final(split).num_blocks && 0 <= t < final(split).types@[i] ==> exists|j: int|
            0 <= j < i && #[trigger] final(split).types@[j] == t,
        0 < i < final(split).num_blocks ==> final(split).types@[i] != final(split).types@[i - 1],
        final(split).num_types > 0,
        exists|k: int|
            0 <= k < final(split).num_blocks && #[trigger] final(split).types@[k] + 1
                == final(split).num_types,
        final(split).num_blocks <= i < final(split).types@.len() ==> final(split).types@[i] == if i
            < old(split).types@.len() {
            old(split).types@[i]
        } else {
            0
        },
        final(split).num_blocks <= i < final(split).lengths@.len() ==> final(split).lengths@[i] == if i
            < old(split).lengths@.len() {
            old(split).lengths@[i]
        } else {
            0
        },
{
    let symbols = choice.symbols();
    let lengths = choice.lengths();
    let blocks = merged(symbols, lengths).symbols;
    let types = final(split).block_types();
    crate::block_splitter::cluster_blocks::lemma_split_shape(symbols, lengths);
    crate::block_splitter::block_lengths::lemma_merged_symbols(symbols, lengths);
    crate::block_splitter::block_lengths::lemma_merged_first_use(symbols, lengths);
    crate::block_splitter::remap::lemma_first_use(blocks);
    crate::block_splitter::cluster_blocks::lemma_most(types);
    assert(types =~= block_types_of(symbols, lengths));
    assert(types.len() > 0) by {
        assert(symbols.contains(symbols[0]));
        crate::block_splitter::remap::lemma_first_use(symbols);
        assert(first_use(symbols).contains(symbols[0]));
    }
    assert forall|k: int| 0 <= k < types.len() implies 0 <= use_rank(blocks, #[trigger] blocks[k])
        < 256 && types[k] == use_rank(blocks, blocks[k]) && final(split).types@[k] == types[k] by {
        assert(blocks.contains(blocks[k]));
        assert(first_use(blocks).contains(blocks[k]));
    }
    let top = types.index_of(most(types));
    assert(final(split).types@[top] == types[top]);
    if 0 < i < types.len() {
        assert(types[i] != types[i - 1]);
        assert(types[i] == final(split).types@[i] && types[i - 1] == final(split).types@[i - 1]);
    }
    if 0 <= i < types.len() && 0 <= t < final(split).types@[i] {
        assert(types[i] == use_rank(blocks, blocks[i]));
        let j = law_first_use(blocks, i, t);
        assert(types[j] == use_rank(blocks, blocks[j]));
        assert(final(split).types@[j] == t);
    }
}

/// The types that a split is written with, spelled out by the lengths, tell for every symbol of the
/// stream which cluster its block is in: two symbols have the same type exactly if their blocks have the
/// same cluster. Neighbouring blocks of a split have different types.
pub proof fn law_finish(choice: ClusterChoice, split: &mut BlockSplit, p: int, q: int)
    requires
        choice.symbols().len() == choice.lengths().len(),
        total(choice.lengths()) <= u32::MAX,
        first_use(choice.symbols()).len() <= 256,
        0 <= p < spelled(choice.symbols(), choice.lengths()).len(),
        0 <= q < spelled(choice.symbols(), choice.lengths()).len(),
        call_ensures(ClusterChoice::finish, (choice, split), ()),
    ensures
        ({
            let clusters = spelled(choice.symbols(), choice.lengths());
            let types = spelled(final(split).block_types(), final(split).block_lengths());
            &&& final(split).block_types().len() == final(split).block_lengths().len()
            &&& types.len() == clusters.len()
            &&& types[p] == types[q] <==> clusters[p] == clusters[q]
            &&& types[p] == use_rank(choice.symbols(), clusters[p])
            &&& types[p] < final(split).num_types
        }),
{
    let symbols = choice.symbols();
    let lengths = choice.lengths();
    let after = merged(symbols, lengths);
    let clusters = spelled(symbols, lengths);
    law_merged(symbols, lengths);
    let rank = |symbol: u32| use_rank(symbols, symbol) as u8;
    assert(block_types_of(symbols, lengths) =~= after.symbols.map_values(rank));
    lemma_spelled_map(after.symbols, after.lengths, rank);
    lemma_spelled_among(symbols, lengths, p);
    lemma_spelled_among(symbols, lengths, q);
    crate::block_splitter::remap::lemma_first_use(symbols);
    let used = first_use(symbols);
    assert(symbols.contains(clusters[p]) && symbols.contains(clusters[q]));
    assert(used.contains(clusters[p]) && used.contains(clusters[q]));
    assert(used[use_rank(symbols, clusters[p])] == clusters[p]);
    assert(used[use_rank(symbols, clusters[q])] == clusters[q]);
    let types = final(split).block_types();
    crate::block_splitter::cluster_blocks::lemma_most(types);
    lemma_spelled_among(types, final(split).block_lengths(), p);
    let spelled_types = spelled(types, final(split).block_lengths());
    assert(types.contains(spelled_types[p]));
    let i = types.index_of(spelled_types[p]);
    assert(types[i] <= most(types));
}

proof fn lemma_spelled_map(symbols: Seq<u32>, lengths: Seq<u32>, f: spec_fn(u32) -> u8)
    requires
        symbols.len() == lengths.len(),
    ensures
        spelled(symbols.map_values(f), lengths) == spelled(symbols, lengths).map_values(f),
    decreases symbols.len(),
{
    if symbols.len() > 0 {
        let n = symbols.len() - 1;
        lemma_spelled_map(symbols.drop_last(), lengths.take(n), f);
        assert(symbols.map_values(f).drop_last() =~= symbols.drop_last().map_values(f));
        assert(spelled(symbols.map_values(f), lengths) =~= spelled(symbols, lengths).map_values(f));
    } else {
        assert(spelled(symbols.map_values(f), lengths) =~= spelled(symbols, lengths).map_values(f));
    }
}

proof fn lemma_spelled_among<T>(symbols: Seq<T>, lengths: Seq<u32>, p: int)
    requires
        symbols.len() == lengths.len(),
        0 <= p < spelled(symbols, lengths).len(),
    ensures
        symbols.contains(spelled(symbols, lengths)[p]),
    decreases symbols.len(),
{
    if symbols.len() > 0 {
        let n = symbols.len() - 1;
        let rest = symbols.drop_last();
        let before = spelled(rest, lengths.take(n));
        if p < before.len() {
            lemma_spelled_among(rest, lengths.take(n), p);
            let i = rest.index_of(before[p]);
            assert(symbols[i] == before[p]);
        } else {
            assert(symbols[n] == spelled(symbols, lengths)[p]);
        }
    }
}

} // verus!
