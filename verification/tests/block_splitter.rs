use simd_brotli::block_split::BlockSplit;
use simd_brotli::block_splitter::block_lengths::block_lengths;
use simd_brotli::block_splitter::cluster_blocks::{
    cheapest_cluster, max_pairs, BlockClusterer, ClusterChoice, Combined,
};
use simd_brotli::block_splitter::entropy_codes::{
    InitialEntropyCodes, MyRand, RandomSample, RefineEntropyCodes,
};
use simd_brotli::block_splitter::find_blocks::{cheapest_histogram, FindBlocks, FoundBlocks};
use simd_brotli::block_splitter::remap::{BuildBlockHistograms, RemapBlockIds};
use simd_brotli::block_splitter::split::{
    command_settings, distance_settings, literal_settings, BlockSearch, BrotliSplitBlock,
    SplitByteVector, StreamSettings,
};
use simd_brotli::block_splitter::streams::{
    command_prefixes, distance_prefixes, CopyLiteralsToByteArray, CountLiterals,
};
use simd_brotli::command::Command;
use simd_brotli::histogram::Histogram;
use simd_brotli::params::BrotliEncoderParams;

fn command(insert_len_: u32, copy_len_: u32, cmd_prefix_: u16, dist_prefix_: u16) -> Command {
    Command { insert_len_, copy_len_, dist_extra_: 0, cmd_prefix_, dist_prefix_ }
}

fn params(quality: i32) -> BrotliEncoderParams {
    BrotliEncoderParams {
        quality,
        lgwin: 22,
        favor_cpu_efficiency: false,
        catable: false,
        appendable: false,
        magic_number: false,
    }
}

fn rows(histograms: &[Histogram]) -> Vec<Vec<u32>> {
    histograms.iter().map(|histogram| histogram.data_.clone()).collect()
}

#[test]
fn literals_are_counted() {
    let cmds = [command(3, 2, 0, 0), command(0, 4, 0, 0), command(5, 0, 0, 0)];
    assert_eq!(CountLiterals(&cmds, 3), 8);
    assert_eq!(CountLiterals(&cmds, 1), 3);
    assert_eq!(CountLiterals(&cmds, 9), 8);
    assert_eq!(CountLiterals(&cmds, 0), 0);
}

#[test]
fn literals_are_copied_round_the_ring() {
    let data: Vec<u8> = (0..16).collect();
    let cmds = [command(3, 2, 0, 0), command(4, 1, 0, 0), command(5, 0, 0, 0)];
    // From ten: 10 11 12, a copy of two, 15 0 1 2, a copy of one, 4 5 6 7 8.
    let literals = CopyLiteralsToByteArray(&cmds, 3, &data, 26, 15);
    assert_eq!(literals, vec![10, 11, 12, 15, 0, 1, 2, 4, 5, 6, 7, 8]);
    assert_eq!(literals.len(), CountLiterals(&cmds, 3));
    // A run that ends with the ring, and one that starts with it.
    let cmds = [command(6, 0, 0, 0), command(2, 0, 0, 0)];
    assert_eq!(CopyLiteralsToByteArray(&cmds, 2, &data, 10, 15), vec![10, 11, 12, 13, 14, 15, 0, 1]);
    assert_eq!(CopyLiteralsToByteArray(&[], 2, &data, 10, 15), Vec::<u8>::new());
}

#[test]
fn the_upper_bits_of_a_copy_length_do_not_count() {
    assert_eq!(command(0, 0xfe00_0007, 0, 0).copy_len(), 7);
}

#[test]
fn prefixes_of_commands_and_distances() {
    let cmds = [
        command(1, 4, 130, 0x0c05),
        command(1, 4, 127, 6),
        command(1, 0, 200, 7),
        command(1, 4, 128, 0x03ff),
    ];
    assert_eq!(command_prefixes(&cmds, 4), vec![130, 127, 200, 128]);
    assert_eq!(command_prefixes(&cmds, 6), vec![130, 127, 200, 128, 0, 0]);
    assert_eq!(command_prefixes(&cmds, 2), vec![130, 127]);
    assert_eq!(distance_prefixes(&cmds, 4), vec![5, 0x3ff]);
    assert_eq!(distance_prefixes(&cmds, 3), vec![5]);
}

#[test]
fn random_numbers() {
    let mut seed = 7;
    assert_eq!(MyRand(&mut seed), 117649);
    assert_eq!(MyRand(&mut seed), 1977326743);
    assert_eq!(seed, 1977326743);
    let mut zero = 0;
    assert_eq!(MyRand(&mut zero), 1);
}

#[test]
fn codes_start_from_samples_and_are_refined_by_more() {
    let data: Vec<u8> = (0..200u32).map(|i| ((i * i) % 7) as u8).collect();
    let mut histograms: Vec<Histogram> = (0..4).map(|_| Histogram::new(8)).collect();
    histograms[0].data_[5] = 99;
    histograms[3].data_[5] = 99;
    InitialEntropyCodes(&data, 200, 10, 3, &mut histograms, 8);
    let sample = vec![2, 3, 2, 0, 3, 0, 0, 0];
    let untouched = vec![0, 0, 0, 0, 0, 99, 0, 0];
    assert_eq!(
        rows(&histograms),
        vec![sample.clone(), sample.clone(), sample, untouched]
    );
    RefineEntropyCodes(&data, 200, 10, 3, &mut histograms, 8);
    assert_eq!(histograms[0].data_, vec![66, 135, 144, 0, 135, 0, 0, 0]);
    assert_eq!(histograms[1].data_, vec![67, 137, 139, 0, 137, 0, 0, 0]);
    assert_eq!(histograms[2].data_, vec![73, 133, 133, 0, 141, 0, 0, 0]);
    assert_eq!(histograms[0].total_count_, 480);
}

#[test]
fn a_sample_of_a_short_stream_is_all_of_it() {
    let mut seed = 7;
    let mut sample = Histogram::new(4);
    RandomSample(&mut seed, &[1u8, 2, 3, 3], 4, 4, &mut sample);
    assert_eq!(sample.data_, vec![0, 1, 1, 2]);
    assert_eq!(seed, 7);
    RandomSample(&mut seed, &[1u8, 2, 3, 3], 4, 3, &mut sample);
    assert_eq!(seed, 117649);
    // 117649 is odd: the sample starts at the second symbol.
    assert_eq!(sample.data_, vec![0, 1, 2, 4]);
}

#[test]
fn the_cheapest_histogram_is_the_first_of_equals() {
    for n in 1..40usize {
        for best in 0..n {
            let mut costs = vec![9u64; n];
            costs[best] = 3;
            assert_eq!(cheapest_histogram(&costs, 100), Some(best));
            for also in best..n {
                costs[also] = 3;
            }
            assert_eq!(cheapest_histogram(&costs, 100), Some(best));
            assert_eq!(cheapest_histogram(&costs, 4), Some(best));
            assert_eq!(cheapest_histogram(&costs, 3), None);
            assert_eq!(cheapest_cluster(&costs, 4), Some(best));
            assert_eq!(cheapest_cluster(&costs, 3), None);
        }
    }
    assert_eq!(cheapest_histogram(&[], 3), None);
}

#[test]
fn one_histogram_makes_one_block() {
    match FindBlocks(3, 1, vec![5, 5, 5, 5]) {
        FoundBlocks::Settled { block_ids, num_blocks } => {
            assert_eq!(block_ids, vec![0, 0, 0, 5]);
            assert_eq!(num_blocks, 1);
        }
        other => panic!("{:?}", other),
    }
    match FindBlocks(3, 0, vec![5, 5, 5]) {
        FoundBlocks::Settled { block_ids, num_blocks } => {
            assert_eq!(block_ids, vec![5, 5, 5]);
            assert_eq!(num_blocks, 0);
        }
        other => panic!("{:?}", other),
    }
}

/// Runs a search with whole numbers for costs: `inserts[i][h]` is what symbol `i` costs with
/// histogram `h`.
fn search(inserts: &[Vec<u64>], switch_cost: u64) -> (Vec<u8>, usize) {
    let n = inserts[0].len();
    let mut finder = match FindBlocks(inserts.len(), n, vec![0; inserts.len()]) {
        FoundBlocks::Search { finder } => finder,
        other => panic!("{:?}", other),
    };
    let mut costs = vec![0u64; n];
    for insert in inserts {
        for (cost, extra) in costs.iter_mut().zip(insert) {
            *cost += extra;
        }
        let best = finder.pick(&costs, u64::MAX).unwrap();
        let least = costs[best];
        for cost in costs.iter_mut() {
            *cost -= least;
        }
        let mut excess = costs.clone();
        excess.resize(finder.lanes(), 0);
        finder.mark(&excess, switch_cost);
        for cost in costs.iter_mut() {
            *cost = (*cost).min(switch_cost);
        }
    }
    finder.trace()
}

/// What a choice of histograms costs in all.
fn price(inserts: &[Vec<u64>], ids: &[u8], switch_cost: u64) -> u64 {
    let own: u64 = inserts.iter().zip(ids).map(|(insert, &id)| insert[id as usize]).sum();
    let switches = ids.windows(2).filter(|pair| pair[0] != pair[1]).count() as u64;
    own + switches * switch_cost
}

#[test]
fn blocks_follow_the_costs() {
    let mut inserts = vec![vec![0u64, 5]; 10];
    inserts.extend(vec![vec![5u64, 0]; 10]);
    let (ids, num_blocks) = search(&inserts, 12);
    assert_eq!(ids[..10], [0; 10]);
    assert_eq!(ids[10..], [1; 10]);
    assert_eq!(num_blocks, 2);
    let (ids, num_blocks) = search(&inserts, 1000);
    assert_eq!(num_blocks, 1);
    assert!(ids.iter().all(|&id| id == ids[0]));
}

#[test]
fn the_way_through_the_histograms_is_the_cheapest() {
    let mut seed = 3;
    for _ in 0..50 {
        let inserts: Vec<Vec<u64>> = (0..6)
            .map(|_| (0..3).map(|_| (MyRand(&mut seed) >> 8) as u64 % 10).collect())
            .collect();
        let (ids, num_blocks) = search(&inserts, 7);
        let mut cheapest = u64::MAX;
        for code in 0..729u32 {
            let other: Vec<u8> = (0..6).map(|i| (code / 3u32.pow(i) % 3) as u8).collect();
            cheapest = cheapest.min(price(&inserts, &other, 7));
        }
        assert_eq!(price(&inserts, &ids, 7), cheapest);
        assert_eq!(num_blocks, 1 + ids.windows(2).filter(|pair| pair[0] != pair[1]).count());
    }
}

#[test]
fn more_than_eight_histograms_need_more_than_a_byte() {
    let n = 19;
    let mut inserts = vec![vec![1000u64; n]; 8];
    for (i, insert) in inserts.iter_mut().enumerate() {
        insert[if i < 4 { 17 } else { 9 }] = 0;
    }
    let (ids, num_blocks) = search(&inserts, 50);
    assert_eq!(ids, vec![17, 17, 17, 17, 9, 9, 9, 9]);
    assert_eq!(num_blocks, 2);
}

#[test]
fn no_cost_below_the_ceiling_means_the_first_histogram() {
    let mut finder = match FindBlocks(1, 2, vec![0]) {
        FoundBlocks::Search { finder } => finder,
        other => panic!("{:?}", other),
    };
    assert_eq!(finder.pick(&[10, 9], 9), None);
    finder.mark(&[0; 8], 5);
    assert_eq!(finder.trace(), (vec![0], 1));
}

#[test]
fn ids_are_numbered_by_first_use() {
    let mut ids = vec![4, 4, 2, 7, 2, 0, 9];
    assert_eq!(RemapBlockIds(&mut ids, 6, 8), 4);
    assert_eq!(ids, vec![0, 0, 1, 2, 1, 3, 9]);
    assert_eq!(RemapBlockIds(&mut ids, 0, 8), 0);
    assert_eq!(ids, vec![0, 0, 1, 2, 1, 3, 9]);
    // A second time changes nothing.
    let mut once = vec![4, 4, 2, 7, 2, 0];
    RemapBlockIds(&mut once, 6, 8);
    let mut twice = once.clone();
    assert_eq!(RemapBlockIds(&mut twice, 6, 8), 4);
    assert_eq!(once, twice);
    let mut ids = vec![255, 7];
    assert_eq!(RemapBlockIds(&mut ids, 2, 1000), 2);
    assert_eq!(ids, vec![0, 1]);
}

#[test]
fn each_block_type_gets_its_histogram() {
    let mut histograms: Vec<Histogram> = (0..3).map(|_| Histogram::new(4)).collect();
    histograms[0].data_[0] = 50;
    histograms[2].data_[0] = 50;
    BuildBlockHistograms(&[1u8, 2, 3, 1, 1], 4, &[0, 1, 0, 0, 0], 2, &mut histograms, 4);
    assert_eq!(
        rows(&histograms),
        vec![vec![0, 2, 0, 1], vec![0, 0, 1, 0], vec![50, 0, 0, 0]]
    );
    // Only the first two start at zero.
    BuildBlockHistograms(&[1u8, 2, 3], 3, &[2, 1, 2], 2, &mut histograms, 4);
    assert_eq!(
        rows(&histograms),
        vec![vec![0, 0, 0, 0], vec![0, 0, 1, 0], vec![50, 1, 0, 1]]
    );
}

#[test]
fn lengths_of_blocks() {
    assert_eq!(block_lengths(&[3, 3, 1, 1, 1, 3], 6, 3), vec![2, 3, 1]);
    assert_eq!(block_lengths(&[3, 3, 1, 1, 1, 3], 4, 4), vec![2, 2, 0, 0]);
    assert_eq!(block_lengths(&[], 0, 0), Vec::<u32>::new());
}

/// Combines equal histograms of a row, as a stand-in for clustering.
fn combine(histograms: Vec<Histogram>) -> Combined {
    let mut clusters: Vec<u32> = Vec::new();
    let mut symbols = Vec::new();
    let mut sizes = vec![0u32; histograms.len()];
    for (i, histogram) in histograms.iter().enumerate() {
        let cluster = clusters
            .iter()
            .copied()
            .find(|&c| histograms[c as usize].data_ == histogram.data_)
            .unwrap_or(i as u32);
        if cluster == i as u32 {
            clusters.push(cluster);
        }
        symbols.push(cluster);
        sizes[cluster as usize] += 1;
    }
    Combined { histograms, sizes, symbols, clusters }
}

fn distance(a: &Histogram, b: &Histogram) -> u64 {
    a.data_.iter().zip(&b.data_).map(|(&x, &y)| (x as i64 - y as i64).unsigned_abs()).sum()
}

/// Clusters blocks whose symbols are all alike.
fn cluster(data: &[u8], ids: &[u8], num_blocks: usize, size: usize, split: &mut BlockSplit) {
    let mut clusterer = BlockClusterer::new(ids, ids.len(), num_blocks);
    while clusterer.next_block() < num_blocks {
        let batch = clusterer.batch(data, size);
        assert!(batch.len() <= 64);
        let combined = combine(batch);
        clusterer.take_combined(&combined);
    }
    let all = combine(clusterer.all_histograms().iter().map(|h| h.duplicate()).collect());
    let symbols = clusterer
        .histogram_symbols()
        .iter()
        .map(|&symbol| all.symbols[symbol as usize])
        .collect();
    let combined = Combined { symbols, ..all };
    let mut choice = ClusterChoice::new(clusterer, combined);
    while choice.next_block() < num_blocks {
        let block = choice.block(data, size);
        let fallback = distance(&block, &choice.all_histograms()[choice.fallback() as usize]);
        let bits: Vec<u64> = choice
            .clusters()
            .iter()
            .map(|&c| distance(&block, &choice.all_histograms()[c as usize]))
            .collect();
        choice.assign(fallback, &bits);
    }
    choice.finish(split);
}

#[test]
fn blocks_of_the_same_kind_get_the_same_type() {
    let mut data = Vec::new();
    let mut ids = Vec::new();
    for (block, symbol) in [3u8, 1, 3, 2, 1].iter().enumerate() {
        for _ in 0..4 {
            data.push(*symbol);
            ids.push(block as u8);
        }
    }
    let mut split = BlockSplit::new();
    cluster(&data, &ids, 5, 4, &mut split);
    assert_eq!(split.num_blocks, 5);
    assert_eq!(split.types[..5], [0, 1, 0, 2, 1]);
    assert_eq!(split.lengths[..5], [4; 5]);
    assert_eq!(split.num_types, 3);
}

#[test]
fn neighbours_of_the_same_type_are_merged() {
    let data = [1u8, 1, 1, 1, 2, 2];
    let ids = [0u8, 0, 1, 1, 0, 0];
    let mut split = BlockSplit::new();
    cluster(&data, &ids, 3, 4, &mut split);
    assert_eq!(split.num_blocks, 2);
    assert_eq!(split.types[..2], [0, 1]);
    assert_eq!(split.lengths[..2], [4, 2]);
    assert_eq!(split.num_types, 2);
}

#[test]
fn more_blocks_than_a_batch_holds() {
    let mut data = Vec::new();
    let mut ids = Vec::new();
    for block in 0..150usize {
        for _ in 0..3 {
            data.push((block % 5) as u8);
            ids.push((block % 2) as u8);
        }
    }
    let mut split = BlockSplit::new();
    cluster(&data, &ids, 150, 8, &mut split);
    assert_eq!(split.num_blocks, 150);
    assert_eq!(split.num_types, 5);
    let expected: Vec<u8> = (0..150).map(|block| (block % 5) as u8).collect();
    assert_eq!(split.types[..150], expected[..]);
    assert_eq!(split.lengths[..150].iter().sum::<u32>() as usize, data.len());
}

#[test]
fn pairs_to_look_at() {
    assert_eq!(max_pairs(0), 0);
    assert_eq!(max_pairs(10), 50);
    assert_eq!(max_pairs(128), 8192);
    assert_eq!(max_pairs(1000), 64000);
}

#[test]
fn room_doubles() {
    let mut split = BlockSplit::new();
    split.reserve(3);
    assert_eq!((split.types.len(), split.lengths.len()), (3, 3));
    split.reserve(2);
    assert_eq!(split.types.len(), 3);
    split.reserve(10);
    assert_eq!((split.types.len(), split.lengths.len()), (12, 12));
}

#[test]
fn room_behind_the_blocks_stays_and_new_room_is_zero() {
    let room = || BlockSplit { num_types: 0, num_blocks: 0, types: vec![9; 3], lengths: vec![77; 3] };
    let data = [3u8, 3, 3, 3, 1, 1, 1, 1];
    let ids = [0u8, 0, 1, 1, 2, 2, 3, 3];
    let mut split = room();
    cluster(&data, &ids, 4, 4, &mut split);
    assert_eq!((split.num_types, split.num_blocks), (2, 2));
    assert_eq!(split.types, [0, 1, 9, 0, 0, 0]);
    assert_eq!(split.lengths, [4, 4, 77, 0, 0, 0]);
    let mut split = room();
    for length in 1..5 {
        SplitByteVector(&data, length, literal_settings(), &params(9), &mut split);
        if length == 2 {
            assert_eq!((&split.types[..], &split.lengths[..]), (&[0, 0, 9][..], &[1, 2, 77][..]));
        }
    }
    assert_eq!(split.types, [0; 6]);
    assert_eq!(split.lengths, [1, 2, 3, 4, 0, 0]);
}

#[test]
fn clustering_starts_with_no_clusters() {
    let clusterer = BlockClusterer::new(&[0, 0, 1], 3, 2);
    assert_eq!(clusterer.next_block(), 0);
    assert!(clusterer.all_histograms().is_empty());
    assert!(clusterer.cluster_size().is_empty());
    assert!(clusterer.histogram_symbols().is_empty());
}

#[test]
fn an_empty_stream_has_one_type_and_no_blocks() {
    let mut split = BlockSplit::new();
    let search = SplitByteVector::<u8>(&[], 0, literal_settings(), &params(9), &mut split);
    assert!(search.is_none());
    assert_eq!((split.num_types, split.num_blocks), (1, 0));
}

#[test]
fn a_short_stream_is_one_block() {
    let mut split = BlockSplit::new();
    let data = [7u8; 127];
    assert!(SplitByteVector(&data, 127, literal_settings(), &params(9), &mut split).is_none());
    assert!(SplitByteVector(&data, 5, literal_settings(), &params(9), &mut split).is_none());
    assert_eq!((split.num_types, split.num_blocks), (1, 2));
    assert_eq!(split.types[..2], [0, 0]);
    assert_eq!(split.lengths[..2], [127, 5]);
}

#[test]
fn a_long_stream_is_searched() {
    let data: Vec<u8> = (0..2000u32).map(|i| (i % 251) as u8).collect();
    let mut split = BlockSplit::new();
    let search = SplitByteVector(&data, 2000, literal_settings(), &params(11), &mut split).unwrap();
    assert_eq!(search.histograms().len(), 4);
    assert_eq!(search.passes_left(), 3);
    assert_eq!(*search.block_ids(), vec![0u8; 2000]);
    assert_eq!(split.num_blocks, 0);
    // 2 * 2000 / 70 + 100 samples, rounded up to a multiple of four, and four to start with.
    let total: usize = search.histograms().iter().map(|histogram| histogram.total_count_).sum();
    assert_eq!(total, (160 + 4) * 70);
    let many = SplitByteVector(&data, 2000, literal_settings(), &params(12), &mut split).unwrap();
    assert_eq!(many.passes_left(), 10);
    let settings = StreamSettings { max_histograms: 2, ..literal_settings() };
    let few = SplitByteVector(&data, 2000, settings, &params(9), &mut split).unwrap();
    assert_eq!(few.histograms().len(), 2);
}

/// Finds the blocks of a stream with whole numbers for costs: a symbol that a histogram has is free.
fn run_search(data: &[u8], search: &mut BlockSearch) {
    while let Some(found) = search.next_pass() {
        let (ids, num_blocks) = match found {
            FoundBlocks::Settled { block_ids, num_blocks } => (block_ids, num_blocks),
            FoundBlocks::Search { mut finder } => {
                let mut costs = vec![0u64; search.histograms().len()];
                for &symbol in data {
                    for (cost, histogram) in costs.iter_mut().zip(search.histograms()) {
                        *cost += if histogram.data_[symbol as usize] > 0 { 0 } else { 3 };
                    }
                    let best = finder.pick(&costs, u64::MAX).unwrap();
                    let least = costs[best];
                    for cost in costs.iter_mut() {
                        *cost -= least;
                    }
                    let mut excess = costs.clone();
                    excess.resize(finder.lanes(), 0);
                    finder.mark(&excess, 20);
                    for cost in costs.iter_mut() {
                        *cost = (*cost).min(20);
                    }
                }
                finder.trace()
            }
        };
        search.take_blocks(data, ids, num_blocks);
    }
}

#[test]
fn a_search_ends_in_blocks_that_cover_the_stream() {
    let data: Vec<u8> = (0..3000usize).map(|i| if i < 1500 { 65 } else { 66 }).collect();
    let mut split = BlockSplit::new();
    let mut search =
        SplitByteVector(&data, 3000, literal_settings(), &params(9), &mut split).unwrap();
    run_search(&data, &mut search);
    assert_eq!(search.passes_left(), 0);
    let (ids, num_blocks) = (search.block_ids().clone(), search.num_blocks());
    assert_eq!(ids[0], 0);
    let clusterer = search.cluster();
    assert_eq!(clusterer.block_lengths().len(), num_blocks);
    assert_eq!(clusterer.block_lengths().iter().sum::<u32>(), 3000);
    cluster(&data, &ids, num_blocks, 256, &mut split);
    assert_eq!(split.lengths[..split.num_blocks].iter().sum::<u32>(), 3000);
    for pair in split.types[..split.num_blocks].windows(2) {
        assert_ne!(pair[0], pair[1]);
    }
    // No block is empty, and each but the first starts at a cut of the ids.
    let mut at = 0;
    for &length in &split.lengths[..split.num_blocks] {
        assert!(length > 0);
        if at > 0 {
            assert_ne!(ids[at - 1], ids[at]);
        }
        at += length as usize;
    }
}

#[test]
fn the_three_streams_of_a_metablock() {
    let data: Vec<u8> = (0..=255).collect();
    let cmds: Vec<Command> = (0..130).map(|i| command(1, 1, 128 + i, 4 + i)).collect();
    let mut literal_split = BlockSplit::new();
    let mut command_split = BlockSplit::new();
    let mut distance_split = BlockSplit::new();
    let streams = BrotliSplitBlock(
        &cmds,
        130,
        &data,
        0,
        255,
        &params(9),
        &mut literal_split,
        &mut command_split,
        &mut distance_split,
    );
    assert_eq!(streams.literals.len(), 130);
    assert_eq!(streams.literals[..3], [0, 2, 4]);
    assert_eq!(streams.literals[128..], [0, 2]);
    assert_eq!(streams.commands[..2], [128, 129]);
    assert_eq!(streams.distances[..2], [4, 5]);
    let literals = streams.literal_search.unwrap();
    assert_eq!(literals.settings(), literal_settings());
    assert_eq!((literals.block_ids().len(), literals.histograms().len()), (130, 1));
    let commands = streams.command_search.unwrap();
    assert_eq!(commands.settings(), command_settings());
    assert_eq!(commands.histograms()[0].data_.len(), 704);
    let distances = streams.distance_search.unwrap();
    assert_eq!(distances.settings(), distance_settings());
    assert_eq!(distances.histograms()[0].data_.len(), 544);
    assert_eq!(literal_split.num_blocks, 0);

    let streams = BrotliSplitBlock(
        &cmds,
        2,
        &data,
        0,
        255,
        &params(9),
        &mut literal_split,
        &mut command_split,
        &mut distance_split,
    );
    assert!(streams.literal_search.is_none());
    assert_eq!(literal_split.lengths[..1], [2]);
    assert_eq!(command_split.lengths[..1], [2]);
    assert_eq!(distance_split.lengths[..1], [2]);
}

#[test]
fn settings_of_the_streams() {
    let expected = StreamSettings {
        symbols_per_histogram: 544,
        max_histograms: 100,
        stride: 70,
        alphabet_size: 256,
    };
    assert_eq!(literal_settings(), expected);
    assert_eq!(command_settings().symbols_per_histogram, 530);
    assert_eq!(command_settings().max_histograms, 50);
    assert_eq!(distance_settings().symbols_per_histogram, 544);
    assert_eq!(distance_settings().stride, 40);
}
