//! Laws of splitting the streams of a metablock.
use crate::block_split::{grown_size, BlockSplit};
use crate::block_splitter::cluster_blocks::BlockClusterer;
use crate::block_splitter::entropy_codes::{views, InitialEntropyCodes, RefineEntropyCodes};
use crate::block_splitter::split::{
    command_settings, distance_settings, literal_settings, split_starts, BlockSearch,
    BrotliSplitBlock, SplitByteVector, SplitStreams, StreamSettings,
};
use crate::command::Command;
use crate::histogram::{Histogram, Symbol};
use crate::laws::blocks::{
    id_occurrences, joint_occurrences, law_run_lengths, law_symbols_of, run_ids, spelled,
};
use crate::params::BrotliEncoderParams;
use vstd::arithmetic::power2::pow2;
use vstd::prelude::*;

verus! {

/// How the three kinds of streams are split.
pub proof fn law_settings(
    literals: StreamSettings,
    commands: StreamSettings,
    distances: StreamSettings,
)
    requires
        call_ensures(literal_settings, (), literals),
        call_ensures(command_settings, (), commands),
        call_ensures(distance_settings, (), distances),
    ensures
        literals.symbols_per_histogram == 544 && literals.max_histograms == 100 && literals.stride
            == 70 && literals.alphabet_size == 256,
        commands.symbols_per_histogram == 530 && commands.max_histograms == 50 && commands.stride
            == 40 && commands.alphabet_size == 704,
        distances.symbols_per_histogram == 544 && distances.max_histograms == 50 && distances.stride
            == 40 && distances.alphabet_size == 544,
{
}

/// What becomes of a stream of `length` symbols: an empty one gets a type and no block, one of fewer than a
/// hundred and twenty-eight symbols becomes one block of the first type behind what is there, and a longer
/// one is to be searched, with a histogram for each so many symbols and one more, up to the most that it
/// may have, and in three passes, or ten above quality eleven.
pub open spec fn split_as(
    length: int,
    settings: StreamSettings,
    quality: i32,
    before: BlockSplit,
    after: BlockSplit,
    search: Option<BlockSearch>,
) -> bool {
    let n = before.num_blocks as int;
    &&& search is Some <==> length >= 128
    &&& length < 128 ==> after.num_types == 1
    &&& length >= 128 ==> after.num_types == before.num_types
    &&& length == 0 || length >= 128 ==> after.num_blocks == n && after.types@ == before.types@
        && after.lengths@ == before.lengths@
    &&& 0 < length < 128 ==> {
        &&& after.num_blocks == n + 1
        &&& after.types@[n] == 0
        &&& after.lengths@[n] == length
        &&& forall|i: int|
            0 <= i < after.types@.len() && i != n ==> #[trigger] after.types@[i] == if i
                < before.types@.len() {
                before.types@[i]
            } else {
                0
            }
        &&& forall|i: int|
            0 <= i < after.lengths@.len() && i != n ==> #[trigger] after.lengths@[i] == if i
                < before.lengths@.len() {
                before.lengths@[i]
            } else {
                0
            }
    }
    &&& search matches Some(found) ==> {
        let wanted = length / settings.symbols_per_histogram as int + 1;
        &&& found.spec_length() == length
        &&& found.spec_settings() == settings
        &&& found.spec_num_histograms() == if wanted > settings.max_histograms {
            settings.max_histograms as int
        } else {
            wanted
        }
        &&& found.spec_passes_left() == if quality <= 11 {
            3
        } else {
            10int
        }
        &&& found.spec_num_blocks() == 0
        &&& found.ids().len() == length
        &&& forall|i: int| 0 <= i < length ==> #[trigger] found.ids()[i] == 0
    }
}

proof fn lemma_split_as<T: Symbol>(
    data: Seq<T>,
    length: usize,
    settings: StreamSettings,
    quality: i32,
    before: BlockSplit,
    after: BlockSplit,
    search: Option<BlockSearch>,
)
    requires
        before.wf(),
        settings.symbols_per_histogram > 0,
        length < usize::MAX,
        split_starts(data, length, settings, quality, before, after, search),
    ensures
        split_as(length as int, settings, quality, before, after, search),
{
    if search is Some {
        let q = length as int / settings.symbols_per_histogram as int;
        assert(0 <= q <= length) by (nonlinear_arith)
            requires
                q == length as int / settings.symbols_per_histogram as int,
                settings.symbols_per_histogram > 0,
                length >= 0,
        ;
    }
    if 0 < length < 128 {
        let n = before.num_blocks as int;
        let types = after.block_types();
        let lengths = after.block_lengths();
        assert(types[n] == 0 && lengths[n] == length);
        assert(types[n] == after.types@[n] && lengths[n] == after.lengths@[n]);
        assert forall|i: int| 0 <= i < n implies #[trigger] after.types@[i] == before.types@[i] by {
            assert(types[i] == before.block_types()[i]);
        }
        assert forall|i: int| 0 <= i < n implies #[trigger] after.lengths@[i]
            == before.lengths@[i] by {
            assert(lengths[i] == before.block_lengths()[i]);
        }
    }
}

/// Splitting a stream splits it at once if it is short, and is to be searched if it is long.
pub proof fn law_split_stream<T: Symbol>(
    data: &[T],
    length: usize,
    settings: StreamSettings,
    params: BrotliEncoderParams,
    split: &mut BlockSplit,
    search: Option<BlockSearch>,
)
    requires
        old(split).wf(),
        settings.symbols_per_histogram > 0,
        length < usize::MAX,
        call_ensures(SplitByteVector::<T>, (data, length, settings, &params, split), search),
    ensures
        split_as(
            length as int,
            settings,
            params.quality,
            *old(split),
            *final(split),
            search,
        ),
{
    lemma_split_as(
        data@,
        length,
        settings,
        params.quality,
        *old(split),
        *final(split),
        search,
    );
}

/// A search starts from histograms that were first filled with a sample each and then refined.
pub proof fn law_search_samples<T: Symbol>(
    data: &[T],
    length: usize,
    settings: StreamSettings,
    params: BrotliEncoderParams,
    split: &mut BlockSplit,
    search: BlockSearch,
    initial: &mut Vec<Histogram>,
    refined: &mut Vec<Histogram>,
)
    requires
        length >= 128,
        call_ensures(SplitByteVector::<T>, (data, length, settings, &params, split), Some(search)),
        old(initial)@.len() == search.spec_num_histograms(),
        call_ensures(
            InitialEntropyCodes::<T>,
            (
                data,
                length,
                settings.stride,
                search.spec_num_histograms(),
                initial,
                settings.alphabet_size,
            ),
            (),
        ),
        views(old(refined)@) == views(final(initial)@),
        call_ensures(
            RefineEntropyCodes::<T>,
            (
                data,
                length,
                settings.stride,
                search.spec_num_histograms(),
                refined,
                settings.alphabet_size,
            ),
            (),
        ),
    ensures
        search.spec_histograms() == views(final(refined)@),
{
    let n = search.spec_num_histograms();
    assert(views(final(initial)@) =~= Seq::new(
        n as nat,
        |i: int|
            crate::block_splitter::entropy_codes::initial_code(
                data@,
                length,
                settings.stride,
                n,
                settings.alphabet_size as nat,
                i,
            ),
    ));
}

/// What a search tells of itself. The histograms that a pass goes by are the first ones.
pub proof fn law_search_shows(
    search: BlockSearch,
    settings: StreamSettings,
    histograms: &[Histogram],
    ids: &Vec<u8>,
    num_blocks: usize,
    passes_left: usize,
)
    requires
        search.spec_num_histograms() <= search.spec_histograms().len(),
        call_ensures(BlockSearch::settings, (&search,), settings),
        call_ensures(BlockSearch::histograms, (&search,), histograms),
        call_ensures(BlockSearch::block_ids, (&search,), ids),
        call_ensures(BlockSearch::num_blocks, (&search,), num_blocks),
        call_ensures(BlockSearch::passes_left, (&search,), passes_left),
    ensures
        settings == search.spec_settings(),
        histograms@.len() == search.spec_num_histograms(),
        forall|i: int|
            0 <= i < histograms@.len() ==> (#[trigger] histograms@[i])@ == search.spec_histograms()[i],
        ids@ == search.ids(),
        num_blocks == search.spec_num_blocks(),
        passes_left == search.spec_passes_left(),
{
    assert forall|i: int| 0 <= i < histograms@.len() implies (#[trigger] histograms@[i])@
        == search.spec_histograms()[i] by {
        assert(views(histograms@)[i] == histograms@[i]@);
    }
}

/// Types are given to the runs of the ids that the last pass left: the lengths of the blocks, each with
/// its id, spell these out.
pub proof fn law_search_clusters(search: BlockSearch, clusterer: BlockClusterer)
    requires
        search.ids().len() <= u32::MAX,
        call_ensures(BlockSearch::cluster, (search,), clusterer),
    ensures
        clusterer.lengths().len() == search.spec_num_blocks(),
        run_ids(search.ids()).len() == search.spec_num_blocks(),
        spelled(run_ids(search.ids()), clusterer.lengths()) == search.ids(),
        clusterer.spec_next_block() == 0,
        clusterer.histograms().len() == 0,
        clusterer.sizes().len() == 0,
        clusterer.symbols().len() == 0,
{
    law_run_lengths(search.ids());
}

/// A pass is made as long as some are left. With one histogram it is settled at once, in one block; with
/// more all symbols are gone through.
pub proof fn law_next_pass(
    search: BlockSearch,
    found: Option<crate::block_splitter::find_blocks::FoundBlocks>,
)
    requires
        call_ensures(BlockSearch::next_pass, (&search,), found),
    ensures
        found is Some <==> search.spec_passes_left() > 0,
        found matches Some(crate::block_splitter::find_blocks::FoundBlocks::Settled { block_ids, num_blocks })
            ==> search.spec_num_histograms() == 1 && num_blocks == 1 && block_ids@.len()
            == search.spec_length() && forall|i: int|
            0 <= i < block_ids@.len() ==> #[trigger] block_ids@[i] == 0,
        found matches Some(crate::block_splitter::find_blocks::FoundBlocks::Search { finder })
            ==> search.spec_num_histograms() >= 2 && finder.spec_length() == search.spec_length()
            && finder.spec_num_histograms() == search.spec_num_histograms() && finder.spec_marked()
            == 0,
{
}

/// After a pass the blocks are as found, with their ids numbered anew: equal ids stay equal and different
/// ones different. There is one pass less to make, and the histograms are those of the new ids.
pub proof fn law_take_blocks<T: Symbol>(
    search: &mut BlockSearch,
    data: &[T],
    block_ids: Vec<u8>,
    num_blocks: usize,
    i: int,
    j: int,
    h: int,
    at: int,
)
    requires
        block_ids@.len() <= u32::MAX,
        block_ids@.len() <= data@.len(),
        forall|k: int|
            0 <= k < block_ids@.len() ==> (#[trigger] data@[k]).spec_bucket() < old(
                search,
            ).spec_settings().alphabet_size,
        old(search).spec_length() == block_ids@.len(),
        0 <= i < block_ids@.len(),
        0 <= j < block_ids@.len(),
        call_ensures(BlockSearch::take_blocks::<T>, (search, data, block_ids, num_blocks), ()),
    ensures
        final(search).spec_passes_left() == old(search).spec_passes_left() - 1,
        final(search).spec_num_blocks() == num_blocks,
        final(search).ids().len() == block_ids@.len(),
        final(search).ids()[i] == final(search).ids()[j] <==> block_ids@[i] == block_ids@[j],
        final(search).ids()[0] == 0,
        final(search).spec_length() == old(search).spec_length(),
        final(search).spec_settings() == old(search).spec_settings(),
        final(search).ids()[i] < final(search).spec_num_histograms(),
        exists|k: int|
            0 <= k < block_ids@.len() && #[trigger] final(search).ids()[k] + 1
                == final(search).spec_num_histograms(),
        0 <= h < final(search).spec_num_histograms() && 0 <= at
            < final(search).spec_settings().alphabet_size ==> {
            let counted = final(search).spec_histograms()[h];
            let n = block_ids@.len() as int;
            &&& counted.data[at] == joint_occurrences(data@, final(search).ids(), n, h, at)
            &&& counted.total_count == id_occurrences(final(search).ids(), n, h)
        },
        final(search).spec_num_histograms() <= h < old(search).spec_histograms().len()
            ==> final(search).spec_histograms()[h] == old(search).spec_histograms()[h],
{
    crate::block_splitter::remap::lemma_renumbered_ids(block_ids@);
    let ids = block_ids@;
    let used = crate::block_splitter::remap::first_use(ids);
    crate::block_splitter::remap::lemma_first_use(ids);
    let new_ids = crate::block_splitter::remap::renumbered_ids(ids);
    assert(new_ids[i] == new_ids[j] <==> ids[i] == ids[j]);
    let head = ids.take(1);
    assert(head[0] == ids[0]);
    assert(head.contains(ids[0]));
    crate::block_splitter::remap::lemma_rank_stays(ids, 1, ids[0]);
    crate::block_splitter::remap::lemma_first_use(head);
    assert(crate::block_splitter::remap::first_use(head).len() == 1);
    let order = crate::block_splitter::remap::first_use(new_ids);
    crate::block_splitter::remap::lemma_first_use(new_ids);
    assert(new_ids.contains(new_ids[i]));
    assert(order.contains(new_ids[i]));
    assert(ids.contains(ids[0]));
    assert(used.contains(ids[0]));
    crate::block_splitter::remap::lemma_ids_in_use(ids, 256);
    let top = (used.len() - 1) as u8;
    assert(order[used.len() - 1] == top);
    assert(order.contains(top));
    let place = new_ids.index_of(top);
    assert(final(search).ids()[place] + 1 == final(search).spec_num_histograms());
    if 0 <= h < final(search).spec_num_histograms() && 0 <= at < final(search).spec_settings().alphabet_size {
        law_symbols_of(
            data@,
            final(search).ids(),
            ids.len() as int,
            h,
            final(search).spec_settings().alphabet_size as nat,
            at,
        );
    }
}

/// Each stream of a metablock is split by its own settings, into its own split.
pub proof fn law_split_block(
    cmds: &[Command],
    num_commands: usize,
    data: &[u8],
    pos: usize,
    mask: usize,
    params: BrotliEncoderParams,
    literal_split: &mut BlockSplit,
    command_split: &mut BlockSplit,
    distance_split: &mut BlockSplit,
    streams: SplitStreams,
    literals: StreamSettings,
    commands: StreamSettings,
    distances: StreamSettings,
)
    requires
        num_commands <= cmds@.len(),
        num_commands < usize::MAX,
        streams.literals@.len() < usize::MAX,
        streams.distances@.len() < usize::MAX,
        old(literal_split).wf(),
        old(command_split).wf(),
        old(distance_split).wf(),
        call_ensures(
            BrotliSplitBlock,
            (
                cmds,
                num_commands,
                data,
                pos,
                mask,
                &params,
                literal_split,
                command_split,
                distance_split,
            ),
            streams,
        ),
        call_ensures(literal_settings, (), literals),
        call_ensures(command_settings, (), commands),
        call_ensures(distance_settings, (), distances),
    ensures
        streams.commands@.len() == num_commands,
        forall|i: int|
            0 <= i < num_commands ==> #[trigger] streams.commands@[i] == cmds@[i].cmd_prefix_,
        split_as(
            streams.literals@.len() as int,
            literals,
            params.quality,
            *old(literal_split),
            *final(literal_split),
            streams.literal_search,
        ),
        split_as(
            num_commands as int,
            commands,
            params.quality,
            *old(command_split),
            *final(command_split),
            streams.command_search,
        ),
        split_as(
            streams.distances@.len() as int,
            distances,
            params.quality,
            *old(distance_split),
            *final(distance_split),
            streams.distance_search,
        ),
{
    lemma_split_as(
        streams.literals@,
        streams.literals@.len() as usize,
        literals,
        params.quality,
        *old(literal_split),
        *final(literal_split),
        streams.literal_search,
    );
    lemma_split_as(
        streams.commands@,
        num_commands,
        commands,
        params.quality,
        *old(command_split),
        *final(command_split),
        streams.command_search,
    );
    lemma_split_as(
        streams.distances@,
        streams.distances@.len() as usize,
        distances,
        params.quality,
        *old(distance_split),
        *final(distance_split),
        streams.distance_search,
    );
}

/// Making room keeps every block where it is. There is room enough then, and what is new is zero.
pub proof fn law_reserve(split: &mut BlockSplit, needed: usize, new: BlockSplit)
    requires
        call_ensures(BlockSplit::reserve, (split, needed), ()),
        call_ensures(BlockSplit::new, (), new),
    ensures
        new.num_types == 0 && new.num_blocks == 0 && new.types@.len() == 0 && new.lengths@.len() == 0,
        final(split).num_types == old(split).num_types,
        final(split).num_blocks == old(split).num_blocks,
        final(split).types@.len() == grown_size(old(split).types@.len(), needed as nat),
        final(split).lengths@.len() == grown_size(old(split).lengths@.len(), needed as nat),
        forall|i: int|
            0 <= i < final(split).types@.len() ==> #[trigger] final(split).types@[i] == if i < old(
                split,
            ).types@.len() {
                old(split).types@[i]
            } else {
                0
            },
        forall|i: int|
            0 <= i < final(split).lengths@.len() ==> #[trigger] final(split).lengths@[i] == if i
                < old(split).lengths@.len() {
                old(split).lengths@[i]
            } else {
                0
            },
{
}

/// Room that is too small is doubled until it is large enough: to its size times a power of two, half of
/// which would not do. Where there was none, it becomes what is needed, and room that is large enough
/// stays.
pub proof fn law_grown_size(size: nat, needed: nat) -> (doublings: nat)
    ensures
        size >= needed ==> grown_size(size, needed) == size,
        size == 0 ==> grown_size(size, needed) == needed,
        0 < size < needed ==> doublings > 0 && grown_size(size, needed) == size * pow2(doublings)
            && grown_size(size, needed) >= needed && size * pow2((doublings - 1) as nat) < needed,
    decreases 2 * needed - size,
{
    if 0 < size < needed {
        vstd::arithmetic::power2::lemma2_to64();
        if 2 * size >= needed {
            assert(grown_size(2 * size, needed) == 2 * size);
            assert(size * pow2(1) == 2 * size && size * pow2(0) == size) by (nonlinear_arith)
                requires
                    pow2(1) == 2,
                    pow2(0) == 1,
            ;
            1
        } else {
            let d = law_grown_size(2 * size, needed);
            vstd::arithmetic::power2::lemma_pow2_unfold(d + 1);
            vstd::arithmetic::power2::lemma_pow2_unfold(d);
            assert((2 * size) * pow2(d) == size * pow2(d + 1) && (2 * size) * pow2((d - 1) as nat)
                == size * pow2(d)) by (nonlinear_arith)
                requires
                    pow2(d + 1) == 2 * pow2(d),
                    pow2(d) == 2 * pow2((d - 1) as nat),
            ;
            d + 1
        }
    } else {
        0
    }
}

} // verus!
