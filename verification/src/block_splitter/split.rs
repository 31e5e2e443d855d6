//! Splitting a stream, and the three streams of a metablock.
use super::cluster_blocks::BlockClusterer;
use super::entropy_codes::{InitialEntropyCodes, RefineEntropyCodes};
use super::find_blocks::{FindBlocks, FoundBlocks};
use super::remap::{BuildBlockHistograms, RemapBlockIds};
use super::streams::{
    command_prefixes, distance_prefixes, CopyLiteralsToByteArray, CountLiterals,
};
use crate::block_split::BlockSplit;
use crate::command::Command;
use crate::histogram::{Histogram, HistogramView, Symbol};
use crate::params::BrotliEncoderParams;
use vstd::prelude::*;

verus! {

/// A shorter stream is one block.
pub const kMinLengthForBlockSplitting: usize = 128;

pub const kMaxLiteralHistograms: usize = 100;

pub const kMaxCommandHistograms: usize = 50;

pub const kLiteralStrideLength: usize = 70;

pub const kCommandStrideLength: usize = 40;

pub const kSymbolsPerLiteralHistogram: usize = 544;

pub const kSymbolsPerCommandHistogram: usize = 530;

pub const kSymbolsPerDistanceHistogram: usize = 544;

/// How many different literals there are.
pub const NUM_LITERAL_SYMBOLS: usize = 256;

/// How many different command prefixes there are.
pub const NUM_COMMAND_SYMBOLS: usize = 704;

/// How many different distance prefixes there are.
pub const NUM_DISTANCE_SYMBOLS: usize = 544;

/// How a stream is split.
#[derive(Clone, Copy, PartialEq, Eq, Debug, Structural)]
pub struct StreamSettings {
    /// How many symbols a histogram stands for.
    pub symbols_per_histogram: usize,
    /// How many histograms there are at most.
    pub max_histograms: usize,
    /// How many symbols a sample has.
    pub stride: usize,
    /// How many different symbols there are.
    pub alphabet_size: usize,
}

/// How literals are split.
pub open spec fn spec_literal_settings() -> StreamSettings {
    StreamSettings {
        symbols_per_histogram: kSymbolsPerLiteralHistogram,
        max_histograms: kMaxLiteralHistograms,
        stride: kLiteralStrideLength,
        alphabet_size: NUM_LITERAL_SYMBOLS,
    }
}

/// How literals are split.
pub fn literal_settings() -> (settings: StreamSettings)
    ensures
        settings == spec_literal_settings(),
{
    StreamSettings {
        symbols_per_histogram: kSymbolsPerLiteralHistogram,
        max_histograms: kMaxLiteralHistograms,
        stride: kLiteralStrideLength,
        alphabet_size: NUM_LITERAL_SYMBOLS,
    }
}

/// How command prefixes are split.
pub open spec fn spec_command_settings() -> StreamSettings {
    StreamSettings {
        symbols_per_histogram: kSymbolsPerCommandHistogram,
        max_histograms: kMaxCommandHistograms,
        stride: kCommandStrideLength,
        alphabet_size: NUM_COMMAND_SYMBOLS,
    }
}

/// How command prefixes are split.
pub fn command_settings() -> (settings: StreamSettings)
    ensures
        settings == spec_command_settings(),
{
    StreamSettings {
        symbols_per_histogram: kSymbolsPerCommandHistogram,
        max_histograms: kMaxCommandHistograms,
        stride: kCommandStrideLength,
        alphabet_size: NUM_COMMAND_SYMBOLS,
    }
}

/// How distance prefixes are split.
pub open spec fn spec_distance_settings() -> StreamSettings {
    StreamSettings {
        symbols_per_histogram: kSymbolsPerDistanceHistogram,
        max_histograms: kMaxCommandHistograms,
        stride: kCommandStrideLength,
        alphabet_size: NUM_DISTANCE_SYMBOLS,
    }
}

/// How distance prefixes are split.
pub fn distance_settings() -> (settings: StreamSettings)
    ensures
        settings == spec_distance_settings(),
{
    StreamSettings {
        symbols_per_histogram: kSymbolsPerDistanceHistogram,
        max_histograms: kMaxCommandHistograms,
        stride: kCommandStrideLength,
        alphabet_size: NUM_DISTANCE_SYMBOLS,
    }
}

/// How often the blocks of a stream are looked for: more often above quality eleven.
pub open spec fn passes_for(quality: i32) -> usize {
    if quality <= 11 {
        3
    } else {
        10
    }
}

/// A search for the blocks of a stream: in every pass the blocks are found with the histograms of
/// the pass before, and the histograms are built anew from the blocks.
#[derive(Debug)]
pub struct BlockSearch {
    settings: StreamSettings,
    length: usize,
    num_histograms: usize,
    histograms: Vec<Histogram>,
    block_ids: Vec<u8>,
    num_blocks: usize,
    passes_left: usize,
}

impl StreamSettings {
    /// How many histograms the search in a stream of `length` symbols starts with.
    pub open spec fn histograms_for(&self, length: usize) -> usize {
        let wanted = (length / self.symbols_per_histogram).wrapping_add(1);
        if wanted > self.max_histograms {
            self.max_histograms
        } else {
            wanted
        }
    }

    /// The settings make sense for a stream of `length` symbols that is long enough to be searched.
    pub open spec fn fit(&self, length: usize) -> bool {
        &&& 0 < self.symbols_per_histogram
        &&& length >= kMinLengthForBlockSplitting ==> {
            &&& 0 < self.stride < length
            &&& 0 < self.histograms_for(length) <= 256
            &&& self.histograms_for(length) <= length
            &&& length * self.histograms_for(length) <= usize::MAX
        }
    }
}

impl BlockSearch {
    /// How the stream is split.
    pub closed spec fn spec_settings(&self) -> StreamSettings {
        self.settings
    }

    /// How many symbols the stream has.
    pub closed spec fn spec_length(&self) -> usize {
        self.length
    }

    /// How many histograms the next pass goes by.
    pub closed spec fn spec_num_histograms(&self) -> usize {
        self.num_histograms
    }

    /// The histograms, the ones that are in use first.
    pub closed spec fn spec_histograms(&self) -> Seq<HistogramView> {
        super::entropy_codes::views(self.histograms@)
    }

    /// The block ids that the last pass left.
    pub closed spec fn ids(&self) -> Seq<u8> {
        self.block_ids@
    }

    /// How many blocks the last pass found.
    pub closed spec fn spec_num_blocks(&self) -> usize {
        self.num_blocks
    }

    /// How many passes are left.
    pub closed spec fn spec_passes_left(&self) -> usize {
        self.passes_left
    }

    /// How the stream is split.
    pub fn settings(&self) -> (settings: StreamSettings)
        ensures
            settings == self.spec_settings(),
    {
        self.settings
    }

    /// The histograms that the next pass goes by.
    pub fn histograms(&self) -> (histograms: &[Histogram])
        requires
            self.wf(),
        ensures
            super::entropy_codes::views(histograms@) == self.spec_histograms().take(
                self.spec_num_histograms() as int,
            ),
            histograms@.len() == self.spec_num_histograms(),
    {
        let histograms = &self.histograms[0..self.num_histograms];
        assert(super::entropy_codes::views(histograms@) =~= self.spec_histograms().take(
            self.num_histograms as int,
        ));
        histograms
    }

    /// The block ids that the last pass left.
    pub fn block_ids(&self) -> (ids: &Vec<u8>)
        ensures
            ids@ == self.ids(),
    {
        &self.block_ids
    }

    /// How many blocks the last pass found.
    pub fn num_blocks(&self) -> (num_blocks: usize)
        ensures
            num_blocks == self.spec_num_blocks(),
    {
        self.num_blocks
    }

    /// How many passes are left.
    pub fn passes_left(&self) -> (passes_left: usize)
        ensures
            passes_left == self.spec_passes_left(),
    {
        self.passes_left
    }

    /// There is an id for each symbol and a histogram for each id.
    pub closed spec fn wf(&self) -> bool {
        &&& self.length >= kMinLengthForBlockSplitting
        &&& self.block_ids@.len() == self.length
        &&& 1 <= self.num_histograms <= 256
        &&& self.length * self.num_histograms <= usize::MAX
        &&& self.num_histograms <= self.histograms@.len()
        &&& super::entropy_codes::sized(
            super::entropy_codes::views(self.histograms@),
            self.histograms@.len() as int,
            self.settings.alphabet_size as nat,
        )
        &&& super::find_blocks::run_count(self.block_ids@) == self.num_blocks || self.num_blocks
            == 0
    }

    /// What a search in the first `length` symbols of `data` starts from.
    pub open spec fn starts<T: Symbol>(
        &self,
        data: Seq<T>,
        length: usize,
        settings: StreamSettings,
        quality: i32,
    ) -> bool {
        let n = settings.histograms_for(length);
        let size = settings.alphabet_size as nat;
        &&& self.wf()
        &&& self.spec_settings() == settings
        &&& self.spec_length() == length
        &&& self.spec_num_histograms() == n
        &&& self.ids() == Seq::new(length as nat, |i: int| 0u8)
        &&& self.spec_num_blocks() == 0
        &&& self.spec_passes_left() == passes_for(quality)
        &&& self.spec_histograms() == super::entropy_codes::refined(
            data,
            length,
            settings.stride,
            n,
            size,
            super::entropy_codes::refine_iters(length, settings.stride, n) as nat,
            Seq::new(
                n as nat,
                |i: int|
                    super::entropy_codes::initial_code(data, length, settings.stride, n, size, i),
            ),
        ).histograms
    }

    /// Starts the next pass, or gives nothing where there is none left.
    pub fn next_pass(&self) -> (found: Option<FoundBlocks>)
        requires
            self.wf(),
        ensures
            self.spec_passes_left() == 0 <==> found is None,
            match found {
                None => true,
                Some(FoundBlocks::Settled { block_ids, num_blocks }) => {
                    &&& self.spec_num_histograms() == 1
                    &&& num_blocks == 1
                    &&& block_ids@ == Seq::new(self.spec_length() as nat, |i: int| 0u8)
                },
                Some(FoundBlocks::Search { finder }) => {
                    &&& self.spec_num_histograms() >= 2
                    &&& finder.wf()
                    &&& finder.spec_length() == self.spec_length()
                    &&& finder.spec_num_histograms() == self.spec_num_histograms()
                    &&& finder.spec_marked() == 0
                    &&& finder.chosen().len() == 0
                },
            },
    {
        if self.passes_left == 0 {
            return None;
        }
        let block_ids = self.block_ids.clone();
        proof {
            let n = self.num_histograms as int;
            assert(self.length * ((n + 7) / 8) <= self.length * n) by (nonlinear_arith)
                requires
                    1 <= n,
                    0 <= self.length,
            ;
        }
        let found = FindBlocks(self.length, self.num_histograms, block_ids);
        proof {
            if let FoundBlocks::Settled { block_ids: ids, num_blocks } = &found {
                assert(ids@ =~= Seq::new(self.length as nat, |i: int| 0u8));
            }
        }
        Some(found)
    }

    /// Takes the blocks that a pass has found: their ids are numbered by first use, and the
    /// histograms are built from them.
    pub fn take_blocks<T: Symbol>(&mut self, data: &[T], block_ids: Vec<u8>, num_blocks: usize)
        requires
            old(self).wf(),
            old(self).spec_passes_left() > 0,
            super::entropy_codes::within(
                data@,
                old(self).spec_length() as int,
                old(self).spec_settings().alphabet_size as nat,
            ),
            block_ids@.len() == old(self).spec_length(),
            forall|i: int|
                0 <= i < block_ids@.len() ==> #[trigger] block_ids@[i] < old(self).spec_num_histograms(),
            num_blocks == super::find_blocks::run_count(block_ids@),
        ensures
            final(self).wf(),
            final(self).spec_settings() == old(self).spec_settings(),
            final(self).spec_length() == old(self).spec_length(),
            final(self).spec_passes_left() == old(self).spec_passes_left() - 1,
            final(self).spec_num_blocks() == num_blocks,
            final(self).spec_num_histograms() == super::remap::first_use(block_ids@).len(),
            final(self).ids() == super::remap::renumbered_ids(block_ids@),
            final(self).spec_histograms().len() == old(self).spec_histograms().len(),
            forall|h: int|
                final(self).spec_num_histograms() <= h < old(self).spec_histograms().len() ==> (
                #[trigger] final(self).spec_histograms()[h]) == old(self).spec_histograms()[h],
            forall|h: int|
                0 <= h < final(self).spec_num_histograms() ==> (#[trigger] final(self).spec_histograms()[h])
                    == HistogramView::cleared(final(self).spec_settings().alphabet_size as nat).add_items(
                    super::remap::symbols_of(
                        data@,
                        final(self).ids(),
                        final(self).spec_length() as int,
                        h,
                    ),
                ),
    {
        let ghost found = block_ids@;
        let mut ids = block_ids;
        let length: usize = self.length;
        let size: usize = self.settings.alphabet_size;
        assert(found.take(length as int) =~= found);
        let count: usize = RemapBlockIds(&mut ids, length, self.num_histograms);
        proof {
            super::remap::lemma_first_use(found);
            super::remap::lemma_ids_in_use(found, self.num_histograms as nat);
            assert forall|i: int| 0 <= i < ids@.len() implies found.contains(#[trigger] found[i])
                && ids@[i] < count by {
                assert(super::remap::first_use(found).contains(found[i]));
            }
            super::remap::lemma_remap_keeps_runs(found, ids@, found);
            super::block_lengths::lemma_run_lengths(found);
            assert(found.contains(found[0]));
            assert(super::remap::first_use(found).contains(found[0]));
            assert(ids@ =~= super::remap::renumbered_ids(found));
            assert(length * count <= length * self.num_histograms) by (nonlinear_arith)
                requires
                    count <= self.num_histograms,
            ;
        }
        let ghost before = self.histograms@;
        BuildBlockHistograms(data, length, &ids, count, &mut self.histograms, size);
        proof {
            assert forall|h: int| count <= h < before.len() implies (#[trigger] self.histograms@[h])@
                == before[h]@ by {
                super::remap::lemma_symbols_of_none(data@, ids@, length as int, h);
            }
        }
        self.num_histograms = count;
        self.block_ids = ids;
        self.num_blocks = num_blocks;
        self.passes_left = self.passes_left - 1;
    }

    /// Goes on to give the blocks their types.
    pub fn cluster(self) -> (clusterer: BlockClusterer)
        requires
            self.wf(),
            self.spec_num_blocks() > 0,
        ensures
            clusterer.wf(),
            clusterer.lengths() == super::block_lengths::run_lengths(self.ids()),
            clusterer.lengths().len() == self.spec_num_blocks(),
            self.spec_num_blocks() <= self.spec_length(),
            self.spec_length() <= u32::MAX ==> super::block_lengths::total(clusterer.lengths())
                == self.spec_length(),
            super::block_lengths::total(clusterer.lengths()) <= self.spec_length(),
            clusterer.spec_next_block() == 0,
            clusterer.histograms() == Seq::<HistogramView>::empty(),
            clusterer.sizes() == Seq::<u32>::empty(),
            clusterer.symbols() == Seq::<u32>::empty(),
            clusterer.spec_remap() == Seq::new(64, |i: int| 0u32),
    {
        proof {
            assert(self.block_ids@.take(self.length as int) =~= self.block_ids@);
            super::block_lengths::lemma_run_lengths(self.block_ids@);
        }
        let clusterer = BlockClusterer::new(&self.block_ids, self.length, self.num_blocks);
        assert(clusterer.lengths() =~= super::block_lengths::run_lengths(self.block_ids@));
        clusterer
    }
}

/// A row of equal ids is one run.
pub proof fn lemma_one_run(ids: Seq<u8>)
    requires
        ids.len() > 0,
        forall|i: int, j: int|
            0 <= i < ids.len() && 0 <= j < ids.len() ==> #[trigger] ids[i] == #[trigger] ids[j],
    ensures
        super::find_blocks::run_count(ids) == 1,
    decreases ids.len(),
{
    if ids.len() > 1 {
        lemma_one_run(ids.skip(1));
    }
}

/// What becomes of a stream that is too short to be searched: nothing of an empty one, and one more
/// block of any other.
pub open spec fn split_short(length: usize, before: BlockSplit, after: BlockSplit) -> bool {
    &&& after.num_types == 1
    &&& if length == 0 {
        &&& after.num_blocks == before.num_blocks
        &&& after.types == before.types
        &&& after.lengths == before.lengths
    } else {
        &&& after.num_blocks == before.num_blocks + 1
        &&& after.block_types() == before.block_types().push(0)
        &&& after.block_lengths() == before.block_lengths().push(length as u32)
        &&& after.types@.len() == crate::block_split::grown_size(
            before.types@.len(),
            (before.num_blocks + 1) as nat,
        )
        &&& after.lengths@.len() == crate::block_split::grown_size(
            before.lengths@.len(),
            (before.num_blocks + 1) as nat,
        )
        &&& after.keeps_room(&before)
    }
}

/// How splitting the first `length` symbols of `data` starts: a short stream is split at once, a
/// longer one is to be searched.
pub open spec fn split_starts<T: Symbol>(
    data: Seq<T>,
    length: usize,
    settings: StreamSettings,
    quality: i32,
    before: BlockSplit,
    after: BlockSplit,
    search: Option<BlockSearch>,
) -> bool {
    &&& after.wf()
    &&& if length < kMinLengthForBlockSplitting {
        search is None && split_short(length, before, after)
    } else {
        search matches Some(search) && search.starts(data, length, settings, quality) && after
            == before
    }
}

/// The symbols of a stream that is to be searched have buckets.
pub open spec fn splittable<T: Symbol>(data: Seq<T>, length: usize, settings: StreamSettings) -> bool {
    &&& settings.fit(length)
    &&& length >= kMinLengthForBlockSplitting ==> super::entropy_codes::within(
        data,
        length as int,
        settings.alphabet_size as nat,
    )
}

/// Starts splitting the first `length` symbols of `data`.
pub fn SplitByteVector<T: Symbol>(
    data: &[T],
    length: usize,
    settings: StreamSettings,
    params: &BrotliEncoderParams,
    split: &mut BlockSplit,
) -> (search: Option<BlockSearch>)
    requires
        old(split).wf(),
        old(split).num_blocks < usize::MAX / 2,
        splittable(data@, length, settings),
    ensures
        split_starts(data@, length, settings, params.quality, *old(split), *final(split), search),
{
    let mut num_histograms: usize = (length / settings.symbols_per_histogram).wrapping_add(1);
    if num_histograms > settings.max_histograms {
        num_histograms = settings.max_histograms;
    }
    if length == 0 {
        split.num_types = 1;
        return None;
    } else if length < kMinLengthForBlockSplitting {
        let at: usize = split.num_blocks;
        split.reserve(at + 1);
        split.num_types = 1;
        split.types[at] = 0;
        split.lengths[at] = length as u32;
        split.num_blocks = at + 1;
        proof {
            crate::block_split::lemma_grown_size(old(split).types@.len(), (at + 1) as nat);
            crate::block_split::lemma_grown_size(old(split).lengths@.len(), (at + 1) as nat);
            assert(split.block_types() =~= old(split).block_types().push(0));
            assert(split.block_lengths() =~= old(split).block_lengths().push(length as u32));
        }
        return None;
    }
    let size: usize = settings.alphabet_size;
    let mut histograms: Vec<Histogram> = Vec::new();
    while histograms.len() < num_histograms
        invariant
            histograms@.len() <= num_histograms,
            forall|i: int|
                0 <= i < histograms@.len() ==> (#[trigger] histograms@[i])@.data.len() == size,
        decreases num_histograms - histograms@.len(),
    {
        histograms.push(Histogram::new(size));
    }
    proof {
        assert forall|i: int| 0 <= i < num_histograms implies (#[trigger] super::entropy_codes::views(
            histograms@,
        )[i]).data.len() == size by {
            assert(histograms@[i]@.data.len() == size);
        }
    }
    InitialEntropyCodes(data, length, settings.stride, num_histograms, &mut histograms, size);
    assert(super::entropy_codes::views(histograms@) =~= Seq::new(
        num_histograms as nat,
        |i: int|
            super::entropy_codes::initial_code(
                data@,
                length,
                settings.stride,
                num_histograms,
                size as nat,
                i,
            ),
    ));
    RefineEntropyCodes(data, length, settings.stride, num_histograms, &mut histograms, size);
    let passes_left: usize = if params.quality <= 11 { 3 } else { 10 };
    let block_ids: Vec<u8> = vec![0u8; length];
    assert(block_ids@ =~= Seq::new(length as nat, |i: int| 0u8));
    Some(
        BlockSearch {
            settings,
            length,
            num_histograms,
            histograms,
            block_ids,
            num_blocks: 0,
            passes_left,
        },
    )
}

/// The streams of a metablock and the searches for their blocks.
#[derive(Debug)]
pub struct SplitStreams {
    pub literals: Vec<u8>,
    pub literal_search: Option<BlockSearch>,
    pub commands: Vec<u16>,
    pub command_search: Option<BlockSearch>,
    pub distances: Vec<u16>,
    pub distance_search: Option<BlockSearch>,
}

/// The streams of these commands can be read and split.
pub open spec fn streams_fit(
    cmds: Seq<Command>,
    num_commands: usize,
    data: Seq<u8>,
    pos: usize,
    mask: usize,
) -> bool {
    let first = super::streams::first_commands(cmds, num_commands);
    let literals = super::streams::literals_of(first, data, pos & mask, mask);
    let commands = super::streams::command_prefixes_of(cmds, num_commands);
    let distances = super::streams::distance_prefixes_of(first);
    &&& super::streams::literals_fit(first, data.len(), pos & mask, mask)
    &&& literals.len() * kMaxLiteralHistograms <= usize::MAX
    &&& num_commands * kMaxCommandHistograms <= usize::MAX
    &&& num_commands >= kMinLengthForBlockSplitting ==> forall|i: int|
        0 <= i < commands.len() ==> #[trigger] commands[i] < NUM_COMMAND_SYMBOLS
    &&& distances.len() >= kMinLengthForBlockSplitting ==> forall|i: int|
        0 <= i < distances.len() ==> #[trigger] distances[i] < NUM_DISTANCE_SYMBOLS
}

proof fn lemma_settings_fit(settings: StreamSettings, length: usize)
    requires
        settings == spec_literal_settings() || settings == spec_command_settings() || settings
            == spec_distance_settings(),
        length * settings.max_histograms <= usize::MAX,
    ensures
        settings.fit(length),
{
    let n = settings.histograms_for(length);
    assert(1 <= n <= settings.max_histograms);
    assert(length * n <= length * settings.max_histograms) by (nonlinear_arith)
        requires
            n <= settings.max_histograms,
            length >= 0,
    ;
    if length >= kMinLengthForBlockSplitting {
        assert(n <= length);
    }
}

/// Takes the literals, the command prefixes and the distance prefixes out of the first
/// `num_commands` commands, and starts splitting each of these streams.
pub fn BrotliSplitBlock(
    cmds: &[Command],
    num_commands: usize,
    data: &[u8],
    pos: usize,
    mask: usize,
    params: &BrotliEncoderParams,
    literal_split: &mut BlockSplit,
    insert_and_copy_split: &mut BlockSplit,
    dist_split: &mut BlockSplit,
) -> (streams: SplitStreams)
    requires
        streams_fit(cmds@, num_commands, data@, pos, mask),
        old(literal_split).wf(),
        old(literal_split).num_blocks < usize::MAX / 2,
        old(insert_and_copy_split).wf(),
        old(insert_and_copy_split).num_blocks < usize::MAX / 2,
        old(dist_split).wf(),
        old(dist_split).num_blocks < usize::MAX / 2,
    ensures
        streams.literals@ == super::streams::literals_of(
            super::streams::first_commands(cmds@, num_commands),
            data@,
            pos & mask,
            mask,
        ),
        streams.commands@ == super::streams::command_prefixes_of(cmds@, num_commands),
        streams.distances@ == super::streams::distance_prefixes_of(
            super::streams::first_commands(cmds@, num_commands),
        ),
        split_starts(
            streams.literals@,
            streams.literals@.len() as usize,
            spec_literal_settings(),
            params.quality,
            *old(literal_split),
            *final(literal_split),
            streams.literal_search,
        ),
        split_starts(
            streams.commands@,
            num_commands,
            spec_command_settings(),
            params.quality,
            *old(insert_and_copy_split),
            *final(insert_and_copy_split),
            streams.command_search,
        ),
        split_starts(
            streams.distances@,
            streams.distances@.len() as usize,
            spec_distance_settings(),
            params.quality,
            *old(dist_split),
            *final(dist_split),
            streams.distance_search,
        ),
{
    let ghost first = super::streams::first_commands(cmds@, num_commands);
    let literals_count: usize = CountLiterals(cmds, num_commands);
    let literals = CopyLiteralsToByteArray(cmds, num_commands, data, pos, mask);
    proof {
        super::streams::lemma_literal_count(first, data@, pos & mask, mask);
        lemma_settings_fit(spec_literal_settings(), literals_count);
    }
    let literal_search = SplitByteVector(
        &literals,
        literals_count,
        literal_settings(),
        params,
        literal_split,
    );
    let commands = command_prefixes(cmds, num_commands);
    proof {
        lemma_settings_fit(spec_command_settings(), num_commands);
    }
    let command_search = SplitByteVector(
        &commands,
        num_commands,
        command_settings(),
        params,
        insert_and_copy_split,
    );
    let distances = distance_prefixes(cmds, num_commands);
    let j: usize = distances.len();
    proof {
        super::streams::lemma_distance_count(first);
        assert(j * kMaxCommandHistograms <= num_commands * kMaxCommandHistograms);
        lemma_settings_fit(spec_distance_settings(), j);
    }
    let distance_search = SplitByteVector(
        &distances,
        j,
        distance_settings(),
        params,
        dist_split,
    );
    SplitStreams {
        literals,
        literal_search,
        commands,
        command_search,
        distances,
        distance_search,
    }
}

} // verus!
