//! Laws of finding blocks, numbering them and merging them.
use crate::block_splitter::block_lengths::{block_lengths, merged, run_lengths, total};
use crate::block_splitter::find_blocks::{
    cheapest_histogram, run_count, traced_id, BlockFinder, FindBlocks, FoundBlocks,
};
use crate::block_splitter::remap::{
    first_use, symbols_of, use_rank, BuildBlockHistograms, RemapBlockIds,
};
use crate::histogram::{Histogram, Symbol};
use crate::laws::histogram::{law_counts, law_counts_modulo, occurrences};
use vstd::prelude::*;

verus! {

/// The cheapest histogram is one below the ceiling that none undercuts, and the first of those that cost
/// as little. There is none exactly if no histogram lies below the ceiling.
pub proof fn law_cheapest(costs: &[u64], ceiling: u64, cheapest: Option<usize>)
    requires
        costs@.len() <= 256,
        call_ensures(cheapest_histogram, (costs, ceiling), cheapest),
    ensures
        cheapest is None <==> forall|j: int| 0 <= j < costs@.len() ==> #[trigger] costs@[j] >= ceiling,
        cheapest matches Some(k) ==> {
            &&& k < costs@.len()
            &&& costs@[k as int] < ceiling
            &&& forall|j: int| 0 <= j < costs@.len() ==> #[trigger] costs@[j] >= costs@[k as int]
            &&& forall|j: int| 0 <= j < k ==> #[trigger] costs@[j] > costs@[k as int]
        },
{
}

/// A symbol is noted with its cheapest histogram, or with the first one where none lies below the
/// ceiling.
pub proof fn law_pick(finder: &mut BlockFinder, costs: &[u64], ceiling: u64, cheapest: Option<usize>)
    requires
        costs@.len() <= 256,
        call_ensures(BlockFinder::pick, (finder, costs, ceiling), cheapest),
    ensures
        final(finder).chosen().len() == old(finder).chosen().len() + 1,
        forall|i: int|
            0 <= i < old(finder).chosen().len() ==> #[trigger] final(finder).chosen()[i] == old(
                finder).chosen()[i],
        cheapest is None ==> final(finder).chosen().last() == 0 && forall|j: int|
            0 <= j < costs@.len() ==> #[trigger] costs@[j] >= ceiling,
        cheapest matches Some(k) ==> {
            &&& k < costs@.len()
            &&& final(finder).chosen().last() == k
            &&& costs@[k as int] < ceiling
            &&& forall|j: int| 0 <= j < costs@.len() ==> #[trigger] costs@[j] >= costs@[k as int]
            &&& forall|j: int| 0 <= j < k ==> #[trigger] costs@[j] > costs@[k as int]
        },
        final(finder).spec_marked() == old(finder).spec_marked(),
        final(finder).spec_length() == old(finder).spec_length(),
        final(finder).spec_num_histograms() == old(finder).spec_num_histograms(),
        forall|i: int, h: u8| #[trigger] final(finder).switches(i, h) == old(finder).switches(i, h),
{
}

/// A change away from a histogram is marked exactly where it costs at least as much more than the
/// cheapest as the change does. Marks of earlier symbols stay.
pub proof fn law_mark(
    finder: &mut BlockFinder,
    excess: &[u64],
    switch_cost: u64,
    h: u8,
    i: int,
)
    requires
        h < old(finder).spec_num_histograms(),
        0 <= i <= old(finder).spec_marked(),
        call_ensures(BlockFinder::mark, (finder, excess, switch_cost), ()),
    ensures
        final(finder).spec_marked() == old(finder).spec_marked() + 1,
        final(finder).chosen() == old(finder).chosen(),
        final(finder).spec_length() == old(finder).spec_length(),
        final(finder).spec_num_histograms() == old(finder).spec_num_histograms(),
        i == old(finder).spec_marked() ==> (final(finder).switches(i, h) <==> excess@[h as int]
            >= switch_cost),
        i < old(finder).spec_marked() ==> final(finder).switches(i, h) == old(finder).switches(i, h),
{
}

/// How often two neighbours differ.
pub open spec fn changes(ids: Seq<u8>) -> nat
    decreases ids.len(),
{
    if ids.len() <= 1 {
        0
    } else {
        changes(ids.drop_last()) + if ids[ids.len() - 2] != ids.last() {
            1nat
        } else {
            0
        }
    }
}

proof fn lemma_runs_are_changes(ids: Seq<u8>)
    requires
        ids.len() > 0,
    ensures
        run_count(ids) == changes(ids) + 1,
    decreases ids.len(),
{
    if ids.len() >= 2 {
        crate::block_splitter::block_lengths::lemma_run_count_last(ids);
        lemma_runs_are_changes(ids.drop_last());
    }
}

/// Tracing back, the last symbol keeps its cheapest histogram, and one before it takes the histogram of
/// the symbol behind it, unless a change away from that one was marked: then it takes its own cheapest.
/// There is one block more than there are changes.
pub proof fn law_trace(finder: BlockFinder, found: (Vec<u8>, usize), i: int)
    requires
        finder.wf(),
        finder.spec_marked() == finder.spec_length(),
        finder.chosen().len() == finder.spec_length(),
        0 <= i < finder.spec_length(),
        call_ensures(BlockFinder::trace, (finder,), found),
    ensures
        found.0@.len() == finder.spec_length(),
        i == finder.spec_length() - 1 ==> found.0@[i] == finder.chosen()[i],
        i < finder.spec_length() - 1 ==> found.0@[i] == if finder.switches(i, found.0@[i + 1]) {
            finder.chosen()[i]
        } else {
            found.0@[i + 1]
        },
        found.1 == changes(found.0@) + 1,
{
    let switches = |i: int, h: u8| finder.switches(i, h);
    assert(found.0@[i] == traced_id(finder.chosen(), switches, i));
    if i < finder.spec_length() - 1 {
        assert(found.0@[i + 1] == traced_id(finder.chosen(), switches, i + 1));
    }
    lemma_runs_are_changes(found.0@);
}

/// With one histogram every symbol is in one block, and with none there is nothing to do. With more, the
/// symbols are to be gone through from the first.
pub proof fn law_find_blocks(
    length: usize,
    num_histograms: usize,
    block_ids: Vec<u8>,
    found: FoundBlocks,
)
    requires
        length <= block_ids@.len(),
        num_histograms <= 256,
        call_ensures(FindBlocks, (length, num_histograms, block_ids), found),
    ensures
        found is Search <==> num_histograms >= 2,
        match found {
            FoundBlocks::Settled { block_ids: ids, num_blocks } => {
                &&& num_blocks == num_histograms
                &&& num_histograms == 1 ==> forall|i: int| 0 <= i < length ==> #[trigger] ids@[i] == 0
                &&& num_histograms == 0 ==> ids@ == block_ids@
                &&& ids@.len() == block_ids@.len()
                &&& forall|i: int|
                    length <= i < ids@.len() ==> #[trigger] ids@[i] == block_ids@[i]
            },
            FoundBlocks::Search { finder } => {
                &&& finder.spec_length() == length
                &&& finder.spec_num_histograms() == num_histograms
                &&& finder.spec_marked() == 0
                &&& finder.chosen().len() == 0
            },
        },
{
    if let FoundBlocks::Settled { block_ids: ids, num_blocks } = found {
        if num_histograms == 0 {
            assert(ids@ =~= block_ids@);
        }
    }
}

proof fn lemma_rank_of_new<T>(items: Seq<T>, i: int)
    requires
        0 <= i < items.len(),
        !items.take(i).contains(items[i]),
    ensures
        use_rank(items, items[i]) == first_use(items.take(i)).len(),
{
    let head = items.take(i + 1);
    assert(head.drop_last() =~= items.take(i));
    assert(head.last() == items[i]);
    crate::block_splitter::remap::lemma_first_use(items.take(i));
    crate::block_splitter::remap::lemma_first_use(head);
    assert(head[i] == items[i]);
    assert(head.contains(items[i]));
    crate::block_splitter::remap::lemma_rank_stays(items, i + 1, items[i]);
    let used = first_use(head);
    let n = first_use(items.take(i)).len() as int;
    assert(used[n] == items[i]);
    let r = used.index_of(items[i]);
    assert(used.contains(items[i]));
    assert(used[r] == used[n]);
}

/// Block ids that are numbered anew tell the same blocks apart. They count up: an id that comes up first
/// at `i` gets a number above all before it, and there is none between it and them. Ids behind the length
/// stay, and there are as many ids as the largest number and one.
pub proof fn law_remap(
    block_ids: &mut Vec<u8>,
    length: usize,
    num_histograms: usize,
    count: usize,
    i: int,
    j: int,
)
    requires
        length <= old(block_ids)@.len(),
        0 <= i < length,
        0 <= j < length,
        call_ensures(RemapBlockIds, (block_ids, length, num_histograms), count),
    ensures
        final(block_ids)@[i] == final(block_ids)@[j] <==> old(block_ids)@[i] == old(block_ids)@[j],
        final(block_ids)@[0] == 0,
        final(block_ids)@[i] < count,
        exists|k: int| 0 <= k < length && #[trigger] final(block_ids)@[k] + 1 == count,
        j < i && !old(block_ids)@.take(i).contains(old(block_ids)@[i]) ==> final(block_ids)@[j]
            < final(block_ids)@[i],
        i > 0 && !old(block_ids)@.take(i).contains(old(block_ids)@[i]) ==> exists|k: int|
            0 <= k < i && #[trigger] final(block_ids)@[k] + 1 == final(block_ids)@[i],
        forall|k: int|
            length <= k < old(block_ids)@.len() ==> #[trigger] final(block_ids)@[k] == old(
                block_ids)@[k],
{
    let ids = old(block_ids)@.take(length as int);
    let used = first_use(ids);
    crate::block_splitter::remap::lemma_first_use(ids);
    assert(ids.contains(ids[0]));
    assert(used.contains(ids[0]));
    let top = used.last();
    assert(used[used.len() - 1] == top);
    assert(used.contains(top));
    let place = ids.index_of(top);
    assert(ids[place] == top);
    assert(used[use_rank(ids, top)] == used[used.len() - 1]);
    assert(final(block_ids)@[place] + 1 == count);
    assert forall|k: int| 0 <= k < length implies 0 <= use_rank(ids, #[trigger] ids[k]) < used.len()
        && used[use_rank(ids, ids[k])] == ids[k] && final(block_ids)@[k] == use_rank(
        ids,
        ids[k],
    ) by {
        assert(ids.contains(ids[k]));
        assert(used.contains(ids[k]));
        assert(final(block_ids)@[k] == use_rank(ids, old(block_ids)@[k]));
    }
    assert(used[use_rank(ids, ids[i])] == ids[i] && used[use_rank(ids, ids[j])] == ids[j]);
    assert(ids.take(0) =~= Seq::empty());
    lemma_rank_of_new(ids, 0);
    assert(use_rank(ids, ids[0]) == 0);
    assert(old(block_ids)@.take(i) =~= ids.take(i));
    if !ids.take(i).contains(ids[i]) {
        let head = ids.take(i);
        lemma_rank_of_new(ids, i);
        crate::block_splitter::remap::lemma_first_use(head);
        if j < i {
            assert(head[j] == ids[j]);
            assert(head.contains(ids[j]));
            crate::block_splitter::remap::lemma_rank_stays(ids, i, ids[j]);
        }
        if i > 0 {
            assert(head[0] == ids[0]);
            assert(head.contains(ids[0]));
            assert(first_use(head).contains(ids[0]));
            let last = first_use(head).last();
            assert(first_use(head)[first_use(head).len() - 1] == last);
            assert(first_use(head).contains(last));
            let k = head.index_of(last);
            assert(head[k] == last && ids[k] == last);
            crate::block_splitter::remap::lemma_rank_stays(ids, i, last);
            let r = first_use(head).index_of(last);
            assert(first_use(head)[r] == first_use(head)[first_use(head).len() - 1]);
            assert(use_rank(ids, ids[k]) == first_use(head).len() - 1);
            assert(final(block_ids)@[k] + 1 == final(block_ids)@[i]);
        }
    }
}

/// How many of the first `n` symbols have this id and belong to bucket `at`.
pub open spec fn joint_occurrences<T: Symbol>(
    data: Seq<T>,
    ids: Seq<u8>,
    n: int,
    id: int,
    at: int,
) -> nat
    decreases n,
{
    if n <= 0 {
        0
    } else {
        joint_occurrences(data, ids, n - 1, id, at) + if ids[n - 1] == id && data[n
            - 1].spec_bucket() == at {
            1nat
        } else {
            0
        }
    }
}

proof fn lemma_symbols_of<T: Symbol>(data: Seq<T>, ids: Seq<u8>, n: int, id: int, at: int, size: nat)
    requires
        n <= data.len(),
        forall|i: int| 0 <= i < n ==> (#[trigger] data[i]).spec_bucket() < size,
    ensures
        occurrences(symbols_of(data, ids, n, id), at) == joint_occurrences(data, ids, n, id, at),
        joint_occurrences(data, ids, n, id, at) <= n || n < 0,
        symbols_of(data, ids, n, id).len() <= n || n < 0,
        forall|i: int|
            0 <= i < symbols_of(data, ids, n, id).len() ==> (#[trigger] symbols_of(
                data,
                ids,
                n,
                id,
            )[i]).spec_bucket() < size,
    decreases n,
{
    if n > 0 {
        lemma_symbols_of(data, ids, n - 1, id, at, size);
        let before = symbols_of(data, ids, n - 1, id);
        if ids[n - 1] == id {
            assert(before.push(data[n - 1]).drop_last() =~= before);
            assert(data[n - 1].spec_bucket() < size);
        }
    }
}

/// Building histograms from blocks counts in each every symbol whose block has its id, and no other.
pub proof fn law_build_histograms<T: Symbol>(
    data: &[T],
    length: usize,
    block_ids: &[u8],
    num_histograms: usize,
    histograms: &mut Vec<Histogram>,
    size: usize,
    h: int,
    at: int,
)
    requires
        length <= block_ids@.len(),
        length <= data@.len(),
        length <= u32::MAX,
        num_histograms <= old(histograms)@.len(),
        forall|i: int| 0 <= i < length ==> (#[trigger] data@[i]).spec_bucket() < size,
        0 <= h < num_histograms,
        0 <= at < size,
        call_ensures(
            BuildBlockHistograms::<T>,
            (data, length, block_ids, num_histograms, histograms, size),
            (),
        ),
    ensures
        final(histograms)@[h].data_@[at] == joint_occurrences(
            data@,
            block_ids@,
            length as int,
            h,
            at,
        ),
        final(histograms)@[h].total_count_ == id_occurrences(block_ids@, length as int, h),
        final(histograms)@.len() == old(histograms)@.len(),
{
    lemma_symbols_of_len(data@, block_ids@, length as int, h);
    lemma_symbols_of(data@, block_ids@, length as int, h, at, size as nat);
    let items = symbols_of(data@, block_ids@, length as int, h);
    law_counts(crate::histogram::HistogramView::cleared(size as nat), items, at);
    assert(final(histograms)@[h]@.data[at] == final(histograms)@[h].data_@[at]);
}

/// How many of the first `n` symbols have this id.
pub open spec fn id_occurrences(ids: Seq<u8>, n: int, id: int) -> nat
    decreases n,
{
    if n <= 0 {
        0
    } else {
        id_occurrences(ids, n - 1, id) + if ids[n - 1] == id {
            1nat
        } else {
            0
        }
    }
}

proof fn lemma_symbols_of_len<T>(data: Seq<T>, ids: Seq<u8>, n: int, id: int)
    ensures
        symbols_of(data, ids, n, id).len() == id_occurrences(ids, n, id),
    decreases n,
{
    if n > 0 {
        lemma_symbols_of_len(data, ids, n - 1, id);
    }
}

/// The histogram that counts the symbols with an id has as many as there are, in each bucket those that
/// belong to it.
pub proof fn law_symbols_of<T: Symbol>(
    data: Seq<T>,
    ids: Seq<u8>,
    n: int,
    id: int,
    size: nat,
    at: int,
)
    requires
        0 <= n <= data.len(),
        n <= u32::MAX,
        forall|i: int| 0 <= i < n ==> (#[trigger] data[i]).spec_bucket() < size,
        0 <= at < size,
    ensures
        ({
            let counted = crate::histogram::HistogramView::cleared(size).add_items(
                symbols_of(data, ids, n, id),
            );
            &&& counted.data.len() == size
            &&& counted.data[at] == joint_occurrences(data, ids, n, id, at)
            &&& counted.total_count == id_occurrences(ids, n, id)
        }),
{
    lemma_symbols_of(data, ids, n, id, at, size);
    lemma_symbols_of_len(data, ids, n, id);
    law_counts(
        crate::histogram::HistogramView::cleared(size),
        symbols_of(data, ids, n, id),
        at,
    );
}

/// `symbols` spelled out, each as often as its length says.
pub open spec fn spelled<T>(symbols: Seq<T>, lengths: Seq<u32>) -> Seq<T>
    decreases symbols.len(),
{
    if symbols.len() == 0 {
        Seq::empty()
    } else {
        let n = symbols.len() - 1;
        spelled(symbols.drop_last(), lengths.take(n)) + Seq::new(
            lengths[n] as nat,
            |i: int| symbols[n],
        )
    }
}

proof fn lemma_spelled_longer<T>(symbols: Seq<T>, lengths: Seq<u32>, more: u32)
    requires
        symbols.len() == lengths.len(),
        symbols.len() > 0,
        lengths.last() + more <= u32::MAX,
    ensures
        spelled(
            symbols,
            lengths.update(lengths.len() - 1, (lengths.last() + more) as u32),
        ) == spelled(symbols, lengths) + Seq::new(more as nat, |i: int| symbols.last()),
{
    let n = symbols.len() - 1;
    let longer = lengths.update(n, (lengths.last() + more) as u32);
    assert(longer.take(n) =~= lengths.take(n));
    let before = spelled(symbols.drop_last(), lengths.take(n));
    assert(spelled(symbols, longer) == before + Seq::new(
        (lengths.last() + more) as nat,
        |i: int| symbols[n],
    ));
    assert(spelled(symbols, longer) =~= spelled(symbols, lengths) + Seq::new(
        more as nat,
        |i: int| symbols.last(),
    ));
}

/// Merging blocks changes nothing of what they spell out: every symbol keeps its place. It leaves no
/// neighbours that are equal.
pub proof fn law_merged(symbols: Seq<u32>, lengths: Seq<u32>)
    requires
        symbols.len() == lengths.len(),
        total(lengths) <= u32::MAX,
    ensures
        ({
            let after = merged(symbols, lengths);
            &&& after.symbols.len() == after.lengths.len()
            &&& spelled(after.symbols, after.lengths) == spelled(symbols, lengths)
            &&& forall|i: int|
                0 < i < after.symbols.len() ==> #[trigger] after.symbols[i] != after.symbols[i - 1]
        }),
    decreases symbols.len(),
{
    crate::block_splitter::block_lengths::lemma_merged_symbols(symbols, lengths);
    if symbols.len() > 0 {
        let n = symbols.len() as int;
        let rest = lengths.take(n - 1);
        assert(rest =~= lengths.drop_last());
        law_merged(symbols.drop_last(), rest);
        crate::block_splitter::block_lengths::lemma_merged_symbols(symbols.drop_last(), rest);
        crate::block_splitter::block_lengths::lemma_merged_total(symbols.drop_last(), rest);
        let before = merged(symbols.drop_last(), rest);
        let after = merged(symbols, lengths);
        let run = Seq::new(lengths[n - 1] as nat, |i: int| symbols[n - 1]);
        if n >= 2 && symbols[n - 2] == symbols[n - 1] {
            assert(symbols.drop_last().last() == symbols[n - 2]);
            assert(total(before.lengths) == total(before.lengths.drop_last())
                + before.lengths.last());
            lemma_spelled_longer(before.symbols, before.lengths, lengths[n - 1]);
            assert(Seq::new(lengths[n - 1] as nat, |i: int| before.symbols.last()) =~= run);
        } else {
            assert(after.symbols.drop_last() =~= before.symbols);
            assert(after.lengths.take(after.symbols.len() - 1) =~= before.lengths);
            let m = after.symbols.len() - 1;
            assert(Seq::new(after.lengths[m] as nat, |i: int| after.symbols[m]) =~= run);
        }
    }
}

/// The ids of the runs, one for each.
pub open spec fn run_ids(ids: Seq<u8>) -> Seq<u8>
    decreases ids.len(),
{
    if ids.len() == 0 {
        Seq::empty()
    } else if ids.len() >= 2 && ids[ids.len() - 2] == ids.last() {
        run_ids(ids.drop_last())
    } else {
        run_ids(ids.drop_last()).push(ids.last())
    }
}

/// The lengths of the runs, each with its id, spell the ids out, and neighbouring runs have different
/// ids.
pub proof fn law_run_lengths(ids: Seq<u8>)
    requires
        ids.len() <= u32::MAX,
    ensures
        run_ids(ids).len() == run_lengths(ids).len(),
        spelled(run_ids(ids), run_lengths(ids)) == ids,
        ids.len() > 0 ==> run_ids(ids).len() > 0 && run_ids(ids).last() == ids.last(),
        forall|i: int| 0 < i < run_ids(ids).len() ==> #[trigger] run_ids(ids)[i] != run_ids(ids)[i - 1],
    decreases ids.len(),
{
    if ids.len() > 0 {
        let rest = ids.drop_last();
        law_run_lengths(rest);
        crate::block_splitter::block_lengths::lemma_run_lengths(rest);
        let before = run_lengths(rest);
        let after = run_lengths(ids);
        let one = Seq::new(1, |i: int| ids.last());
        assert(rest + one =~= ids);
        if ids.len() >= 2 && ids[ids.len() - 2] == ids.last() {
            assert(rest.last() == ids[ids.len() - 2]);
            assert(total(before) == total(before.drop_last()) + before.last());
            lemma_spelled_longer(run_ids(rest), before, 1);
            assert(Seq::new(1, |i: int| run_ids(rest).last()) =~= one);
        } else {
            let m = run_ids(rest).len() as int;
            if ids.len() >= 2 {
                assert(rest.last() == ids[ids.len() - 2]);
            }
            assert(run_ids(ids).drop_last() =~= run_ids(rest));
            assert(after.take(m) =~= before);
            assert(Seq::new(after[m] as nat, |i: int| run_ids(ids)[m]) =~= one);
        }
    }
}

/// The blocks that the first ids make are their runs: with their ids the lengths spell them out, and what
/// room is left behind them is zero.
pub proof fn law_block_lengths(
    block_ids: &[u8],
    length: usize,
    num_blocks: usize,
    lengths: Vec<u32>,
)
    requires
        length <= block_ids@.len(),
        length <= u32::MAX,
        run_count(block_ids@.take(length as int)) <= num_blocks,
        call_ensures(block_lengths, (block_ids, length, num_blocks), lengths),
    ensures
        lengths@.len() == num_blocks,
        ({
            let ids = block_ids@.take(length as int);
            let runs = run_ids(ids).len() as int;
            &&& runs <= num_blocks
            &&& spelled(run_ids(ids), lengths@.take(runs)) == ids
            &&& forall|i: int| runs <= i < num_blocks ==> #[trigger] lengths@[i] == 0
        }),
{
    let ids = block_ids@.take(length as int);
    law_run_lengths(ids);
    crate::block_splitter::block_lengths::lemma_run_lengths(ids);
    assert(lengths@.take(run_ids(ids).len() as int) =~= run_lengths(ids));
}

/// Of no ids none is numbered anew, and there are none.
pub proof fn law_remap_none(block_ids: &mut Vec<u8>, num_histograms: usize, count: usize)
    requires
        call_ensures(RemapBlockIds, (block_ids, 0usize, num_histograms), count),
    ensures
        count == 0,
        final(block_ids)@ == old(block_ids)@,
{
    assert(final(block_ids)@ =~= old(block_ids)@);
}

/// Histograms behind those that are built anew go on counting: they have what they had and the symbols
/// whose block has their id.
pub proof fn law_build_other_histograms<T: Symbol>(
    data: &[T],
    length: usize,
    block_ids: &[u8],
    num_histograms: usize,
    histograms: &mut Vec<Histogram>,
    size: usize,
    h: int,
    at: int,
)
    requires
        length <= block_ids@.len(),
        length <= data@.len(),
        forall|i: int| 0 <= i < length ==> (#[trigger] data@[i]).spec_bucket() < size,
        num_histograms <= h < old(histograms)@.len(),
        old(histograms)@[h].data_@.len() == size,
        0 <= at < size,
        call_ensures(
            BuildBlockHistograms::<T>,
            (data, length, block_ids, num_histograms, histograms, size),
            (),
        ),
    ensures
        final(histograms)@[h].data_@[at] == (old(histograms)@[h].data_@[at] + joint_occurrences(
            data@,
            block_ids@,
            length as int,
            h,
            at,
        )) % 0x1_0000_0000,
        final(histograms)@[h].total_count_ == (old(histograms)@[h].total_count_ + id_occurrences(
            block_ids@,
            length as int,
            h,
        )) % (usize::MAX + 1),
{
    lemma_symbols_of(data@, block_ids@, length as int, h, at, size as nat);
    lemma_symbols_of_len(data@, block_ids@, length as int, h);
    let items = symbols_of(data@, block_ids@, length as int, h);
    law_counts_modulo(old(histograms)@[h]@, items, at);
    assert(final(histograms)@[h]@.data[at] == final(histograms)@[h].data_@[at]);
}

/// Costs are marked in rows of eight: as many rows as it takes to have a place for each histogram.
pub proof fn law_lanes(finder: BlockFinder, lanes: usize)
    requires
        call_ensures(BlockFinder::lanes, (&finder,), lanes),
    ensures
        lanes % 8 == 0,
        lanes >= finder.spec_num_histograms(),
        lanes < finder.spec_num_histograms() + 8,
{
}

proof fn lemma_used_before<T>(items: Seq<T>, i: int, t: int)
    requires
        0 <= i < items.len(),
        0 <= t < use_rank(items, items[i]),
    ensures
        items.take(i).contains(first_use(items)[t]),
    decreases items.len(),
{
    crate::block_splitter::remap::lemma_first_use(items);
    let rest = items.drop_last();
    crate::block_splitter::remap::lemma_first_use(rest);
    assert(items.contains(items[i]));
    assert(first_use(items).contains(items[i]));
    if i < rest.len() {
        assert(items.take(rest.len() as int) =~= rest);
        assert(rest[i] == items[i]);
        assert(rest.contains(items[i]));
        crate::block_splitter::remap::lemma_rank_stays(items, rest.len() as int, items[i]);
        lemma_used_before(rest, i, t);
        assert(rest.take(i) =~= items.take(i));
    } else {
        assert(items.take(i) =~= rest);
        let before = first_use(rest);
        assert(t < before.len());
        assert(before[t] == first_use(items)[t]);
        assert(before.contains(before[t]));
    }
}

/// Numbers by first use count up: before an item with a number, every smaller number has come up.
pub proof fn law_first_use<T>(items: Seq<T>, i: int, t: int) -> (j: int)
    requires
        0 <= i < items.len(),
        0 <= t < use_rank(items, items[i]),
    ensures
        0 <= j < i,
        use_rank(items, items[j]) == t,
{
    lemma_used_before(items, i, t);
    crate::block_splitter::remap::lemma_first_use(items);
    assert(items.contains(items[i]));
    assert(first_use(items).contains(items[i]));
    let item = first_use(items)[t];
    let j = items.take(i).index_of(item);
    assert(items[j] == item);
    assert(first_use(items).contains(item));
    j
}

} // verus!
