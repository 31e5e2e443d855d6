//! Numbering by first use.
use super::entropy_codes::{sized, views, within};
use crate::histogram::{Histogram, HistogramAddItem, HistogramClear, HistogramView, Symbol};
use vstd::prelude::*;

verus! {

/// The different items of `items`, in the order in which they come up first.
pub open spec fn first_use<T>(items: Seq<T>) -> Seq<T>
    decreases items.len(),
{
    if items.len() == 0 {
        Seq::empty()
    } else {
        let before = first_use(items.drop_last());
        if before.contains(items.last()) {
            before
        } else {
            before.push(items.last())
        }
    }
}

/// The number that `item` gets when the items are numbered in the order of their first use.
pub open spec fn use_rank<T>(items: Seq<T>, item: T) -> int {
    first_use(items).index_of(item)
}

/// Numbering by first use names every item that occurs, each once.
pub proof fn lemma_first_use<T>(items: Seq<T>)
    ensures
        first_use(items).no_duplicates(),
        forall|x: T| #[trigger] first_use(items).contains(x) <==> items.contains(x),
        first_use(items).len() <= items.len(),
    decreases items.len(),
{
    if items.len() > 0 {
        let rest = items.drop_last();
        let before = first_use(rest);
        lemma_first_use(rest);
        assert forall|x: T| #[trigger] first_use(items).contains(x) <==> items.contains(x) by {
            if items.contains(x) {
                let i = items.index_of(x);
                if i < rest.len() {
                    assert(rest[i] == x);
                    assert(rest.contains(x));
                }
                if before.contains(x) {
                    let j = before.index_of(x);
                    assert(first_use(items)[j] == x);
                } else {
                    assert(x == items.last());
                    assert(first_use(items)[before.len() as int] == x);
                }
            }
            if first_use(items).contains(x) {
                let j = first_use(items).index_of(x);
                if j < before.len() {
                    assert(before[j] == x);
                    assert(before.contains(x));
                    assert(rest.contains(x));
                    let i = rest.index_of(x);
                    assert(items[i] == x);
                } else {
                    assert(items[items.len() - 1] == x);
                }
            }
        }
        assert(first_use(items).no_duplicates()) by {
            if !before.contains(items.last()) {
                assert forall|i: int, j: int|
                    0 <= i < first_use(items).len() && 0 <= j < first_use(items).len() && i
                        != j implies first_use(items)[i] != first_use(items)[j] by {
                    if i < before.len() {
                        assert(before[i] == first_use(items)[i]);
                        assert(before.contains(before[i]));
                    }
                    if j < before.len() {
                        assert(before[j] == first_use(items)[j]);
                        assert(before.contains(before[j]));
                    }
                }
            }
        }
    }
}

/// What has a number keeps it as more items come.
pub proof fn lemma_rank_stays<T>(items: Seq<T>, n: int, item: T)
    requires
        0 <= n <= items.len(),
        items.take(n).contains(item),
    ensures
        use_rank(items, item) == use_rank(items.take(n), item),
        0 <= use_rank(items, item) < first_use(items.take(n)).len() <= first_use(items).len(),
    decreases items.len(),
{
    lemma_first_use(items);
    lemma_first_use(items.take(n));
    if n == items.len() {
        assert(items.take(n) =~= items);
        assert(first_use(items).contains(item));
    } else {
        let rest = items.drop_last();
        assert(rest.take(n) =~= items.take(n));
        lemma_rank_stays(rest, n, item);
        lemma_first_use(rest);
        let before = first_use(rest);
        let all = first_use(items);
        let k = items.take(n).index_of(item);
        assert(rest[k] == item);
        assert(rest.contains(item));
        assert(before.contains(item));
        let r = before.index_of(item);
        assert(all[r] == item);
        assert(all.contains(item));
        let q = all.index_of(item);
        assert(all[q] == all[r]);
        assert(q == r);
    }
}

/// Different numbers below `n` are at most `n`.
pub proof fn lemma_distinct_below(items: Seq<int>, n: nat)
    requires
        items.no_duplicates(),
        forall|i: int| 0 <= i < items.len() ==> 0 <= #[trigger] items[i] < n,
    ensures
        items.len() <= n,
{
    items.unique_seq_to_set();
    vstd::set_lib::lemma_int_range(0, n as int);
    let range = vstd::set_lib::set_int_range(0, n as int);
    assert forall|x: int| items.to_set().contains(x) implies range.contains(x) by {
        let i = items.index_of(x);
        assert(items[i] == x);
    }
    vstd::set_lib::lemma_len_subset(items.to_set(), range);
}

/// Different items that all occur in `others` are no more than those.
pub proof fn lemma_distinct_among<T>(items: Seq<T>, others: Seq<T>)
    requires
        items.no_duplicates(),
        forall|i: int| 0 <= i < items.len() ==> others.contains(#[trigger] items[i]),
    ensures
        items.len() <= others.len(),
{
    items.unique_seq_to_set();
    others.lemma_cardinality_of_set();
    vstd::seq_lib::seq_to_set_is_finite(others);
    assert forall|x: T| items.to_set().contains(x) implies others.to_set().contains(x) by {
        let i = items.index_of(x);
        assert(items[i] == x);
    }
    vstd::set_lib::lemma_len_subset(items.to_set(), others.to_set());
}

/// Numbered by first use, items come up in the order of their numbers.
pub proof fn lemma_ranks_in_order<T>(symbols: Seq<T>, all: Seq<T>, n: int)
    requires
        0 <= n <= symbols.len(),
        first_use(all) == first_use(symbols),
        first_use(symbols).len() <= 256,
    ensures
        first_use(
            symbols.take(n).map_values(|symbol: T| use_rank(all, symbol) as u8),
        ) == Seq::new(first_use(symbols.take(n)).len(), |k: int| k as u8),
        first_use(symbols.take(n)).len() <= first_use(symbols).len(),
    decreases n,
{
    let id = |symbol: T| use_rank(all, symbol) as u8;
    let seen = symbols.take(n);
    let used = first_use(seen);
    let ids = seen.map_values(id);
    let order = Seq::new(used.len(), |k: int| k as u8);
    if n > 0 {
        lemma_ranks_in_order(symbols, all, n - 1);
        let before = symbols.take(n - 1);
        assert(seen.drop_last() =~= before);
        assert(ids.drop_last() =~= before.map_values(id));
        let symbol = symbols[n - 1];
        assert(seen.last() == symbol);
        assert(seen[n - 1] == symbol);
        assert(seen.contains(symbol));
        lemma_rank_stays(symbols, n, symbol);
        lemma_first_use(seen);
        lemma_first_use(before);
        let used_before = first_use(before);
        let rank = use_rank(symbols, symbol);
        assert(used.contains(symbol));
        assert(used[rank] == symbol);
        let order_before = Seq::new(used_before.len(), |k: int| k as u8);
        if used_before.contains(symbol) {
            assert(before.contains(symbol));
            assert(order_before[rank] == id(symbol));
            assert(order_before.contains(id(symbol)));
        } else {
            assert(used == used_before.push(symbol));
            assert(used[used_before.len() as int] == used[rank]);
            assert(rank == used_before.len());
            assert(!order_before.contains(id(symbol))) by {
                if order_before.contains(id(symbol)) {
                    let k = order_before.index_of(id(symbol));
                    assert(order_before[k] == id(symbol));
                }
            }
            assert(order_before.push(id(symbol)) =~= order);
        }
    }
    assert(first_use(ids) =~= order);
}

/// No more ids are in use than there are.
pub proof fn lemma_ids_in_use(ids: Seq<u8>, n: nat)
    requires
        forall|i: int| 0 <= i < ids.len() ==> #[trigger] ids[i] < n,
    ensures
        first_use(ids).len() <= n,
        forall|i: int| 0 <= i < first_use(ids).len() ==> #[trigger] first_use(ids)[i] < n,
{
    lemma_first_use(ids);
    let used = first_use(ids);
    assert forall|i: int| 0 <= i < used.len() implies #[trigger] used[i] < n by {
        assert(used.contains(used[i]));
        let j = ids.index_of(used[i]);
        assert(ids[j] < n);
    }
    let numbers = used.map_values(|id: u8| id as int);
    assert(numbers.no_duplicates());
    lemma_distinct_below(numbers, n);
}

/// No more clusters are in use than there are.
pub proof fn lemma_ranks_fit(items: Seq<u32>, n: nat)
    requires
        forall|i: int| 0 <= i < items.len() ==> #[trigger] items[i] < n,
    ensures
        first_use(items).len() <= n,
{
    lemma_first_use(items);
    let used = first_use(items);
    let numbers = used.map_values(|item: u32| item as int);
    assert forall|i: int| 0 <= i < used.len() implies 0 <= #[trigger] numbers[i] < n by {
        assert(used.contains(used[i]));
        let j = items.index_of(used[i]);
        assert(items[j] < n);
    }
    assert(numbers.no_duplicates());
    lemma_distinct_below(numbers, n);
}

/// Numbers the block ids anew in the order of their first use, and gives how many there are.
pub fn RemapBlockIds(block_ids: &mut Vec<u8>, length: usize, num_histograms: usize) -> (count: usize)
    requires
        length <= old(block_ids)@.len(),
        forall|i: int| 0 <= i < length ==> #[trigger] old(block_ids)@[i] < num_histograms,
    ensures
        final(block_ids)@.len() == old(block_ids)@.len(),
        count == first_use(old(block_ids)@.take(length as int)).len(),
        count <= num_histograms,
        forall|i: int|
            0 <= i < final(block_ids)@.len() ==> #[trigger] final(block_ids)@[i] == if i < length {
                use_rank(old(block_ids)@.take(length as int), old(block_ids)@[i])
            } else {
                old(block_ids)@[i] as int
            },
{
    let invalid_id: u16 = 256;
    let mut new_id: Vec<u16> = vec![invalid_id; num_histograms];
    let mut next_id: u16 = 0;
    let mut i: usize = 0;
    let ghost ids = block_ids@.take(length as int);
    assert(ids.take(0) =~= Seq::empty());
    while i < length
        invariant
            i <= length <= block_ids@.len(),
            block_ids@ == old(block_ids)@,
            ids == block_ids@.take(length as int),
            invalid_id == 256,
            forall|j: int| 0 <= j < length ==> #[trigger] block_ids@[j] < num_histograms,
            new_id@.len() == num_histograms,
            next_id == first_use(ids.take(i as int)).len(),
            forall|v: u8|
                v < num_histograms ==> #[trigger] new_id@[v as int] == if ids.take(
                    i as int,
                ).contains(v) {
                    use_rank(ids.take(i as int), v)
                } else {
                    256
                },
        decreases length - i,
    {
        let id: u8 = block_ids[i];
        let ghost seen = ids.take(i as int);
        let ghost more = ids.take(i + 1);
        proof {
            assert(more.drop_last() =~= seen);
            assert(more.last() == id);
            lemma_first_use(seen);
            lemma_first_use(more);
            lemma_ids_in_use(seen, 256);
            lemma_ids_in_use(more, 256);
            assert(more[i as int] == id);
            assert(more.contains(id));
            assert forall|v: u8| seen.contains(v) implies more.contains(v) && use_rank(more, v)
                == use_rank(seen, v) && 0 <= use_rank(seen, v) < 256 by {
                assert(more.take(i as int) =~= seen);
                lemma_rank_stays(more, i as int, v);
                let j = seen.index_of(v);
                assert(more[j] == v);
            }
            assert forall|v: u8| more.contains(v) && v != id implies seen.contains(v) by {
                let j = more.index_of(v);
                assert(seen[j] == v);
            }
        }
        if new_id[id as usize] == invalid_id {
            proof {
                assert(!seen.contains(id));
                assert(!first_use(seen).contains(id));
                let all = first_use(more);
                assert(all == first_use(seen).push(id));
                assert(all.contains(id));
                let r = all.index_of(id);
                assert(all[r] == all[next_id as int]);
                assert(r == next_id);
            }
            new_id[id as usize] = next_id;
            next_id += 1;
        }
        i += 1;
    }
    assert(ids.take(i as int) =~= ids);
    i = 0;
    while i < length
        invariant
            i <= length <= block_ids@.len(),
            block_ids@.len() == old(block_ids)@.len(),
            ids == old(block_ids)@.take(length as int),
            forall|j: int| 0 <= j < length ==> #[trigger] old(block_ids)@[j] < num_histograms,
            new_id@.len() == num_histograms,
            forall|v: u8|
                v < num_histograms ==> #[trigger] new_id@[v as int] == if ids.contains(v) {
                    use_rank(ids, v)
                } else {
                    256
                },
            forall|j: int|
                0 <= j < block_ids@.len() ==> #[trigger] block_ids@[j] == if j < i {
                    use_rank(ids, old(block_ids)@[j])
                } else {
                    old(block_ids)@[j] as int
                },
        decreases length - i,
    {
        let id: u8 = block_ids[i];
        proof {
            assert(ids[i as int] == id);
            assert(ids.contains(id));
            lemma_first_use(ids);
            lemma_ids_in_use(ids, 256);
            assert(first_use(ids).contains(id));
        }
        block_ids[i] = new_id[id as usize] as u8;
        i += 1;
    }
    proof {
        lemma_ids_in_use(ids, num_histograms as nat);
    }
    next_id as usize
}

/// Block ids numbered anew in the order of their first use.
pub open spec fn renumbered_ids(ids: Seq<u8>) -> Seq<u8> {
    Seq::new(ids.len(), |i: int| use_rank(ids, ids[i]) as u8)
}

/// Numbering block ids anew keeps which are equal, counts up by first use, and changes nothing the second
/// time.
pub proof fn lemma_renumbered_ids(ids: Seq<u8>)
    ensures
        forall|i: int, j: int|
            0 <= i < ids.len() && 0 <= j < ids.len() ==> (#[trigger] renumbered_ids(ids)[i]
                == #[trigger] renumbered_ids(ids)[j] <==> ids[i] == ids[j]),
        first_use(renumbered_ids(ids)) == Seq::new(first_use(ids).len(), |k: int| k as u8),
        renumbered_ids(renumbered_ids(ids)) == renumbered_ids(ids),
{
    let used = first_use(ids);
    let new_ids = renumbered_ids(ids);
    let order = Seq::new(used.len(), |k: int| k as u8);
    lemma_first_use(ids);
    lemma_ids_in_use(ids, 256);
    assert forall|i: int| 0 <= i < ids.len() implies 0 <= use_rank(ids, #[trigger] ids[i])
        < used.len() && used[use_rank(ids, ids[i])] == ids[i] && new_ids[i] == use_rank(
        ids,
        ids[i],
    ) by {
        assert(ids.contains(ids[i]));
        assert(used.contains(ids[i]));
    }
    assert forall|i: int, j: int| 0 <= i < ids.len() && 0 <= j < ids.len() implies (
    #[trigger] new_ids[i] == #[trigger] new_ids[j] <==> ids[i] == ids[j]) by {
        assert(used[use_rank(ids, ids[i])] == ids[i]);
        assert(used[use_rank(ids, ids[j])] == ids[j]);
    }
    lemma_ranks_in_order(ids, ids, ids.len() as int);
    assert(ids.take(ids.len() as int) =~= ids);
    assert(ids.map_values(|symbol: u8| use_rank(ids, symbol) as u8) =~= new_ids);
    assert(first_use(new_ids) == order);
    assert forall|i: int| 0 <= i < ids.len() implies use_rank(new_ids, #[trigger] new_ids[i])
        == new_ids[i] by {
        let v = new_ids[i];
        assert(use_rank(ids, ids[i]) == v);
        assert(order[v as int] == v);
        assert(order.contains(v));
        let at = order.index_of(v);
        assert(order[at] == v);
    }
    assert(renumbered_ids(new_ids) =~= new_ids);
}

/// Numbering by first use keeps runs apart and together.
pub proof fn lemma_remap_keeps_runs(ids: Seq<u8>, new_ids: Seq<u8>, all: Seq<u8>)
    requires
        ids.len() == new_ids.len(),
        forall|i: int| 0 <= i < ids.len() ==> all.contains(#[trigger] ids[i]),
        forall|i: int| 0 <= i < ids.len() ==> #[trigger] new_ids[i] == use_rank(all, ids[i]),
    ensures
        super::find_blocks::run_count(new_ids) == super::find_blocks::run_count(ids),
    decreases ids.len(),
{
    if ids.len() >= 2 {
        lemma_remap_keeps_runs(ids.skip(1), new_ids.skip(1), all);
        lemma_first_use(all);
        let used = first_use(all);
        assert(all.contains(ids[0]) && all.contains(ids[1]));
        assert(used.contains(ids[0]) && used.contains(ids[1]));
        assert(new_ids[0] == use_rank(all, ids[0]) && new_ids[1] == use_rank(all, ids[1]));
        assert(used[new_ids[0] as int] == ids[0] && used[new_ids[1] as int] == ids[1]);
    }
}

/// The symbols among the first `n` that belong to block type `id`.
pub open spec fn symbols_of<T>(data: Seq<T>, ids: Seq<u8>, n: int, id: int) -> Seq<T>
    decreases n,
{
    if n <= 0 {
        Seq::empty()
    } else {
        let before = symbols_of(data, ids, n - 1, id);
        if ids[n - 1] == id {
            before.push(data[n - 1])
        } else {
            before
        }
    }
}

/// An id that does not occur has no symbols.
pub proof fn lemma_symbols_of_none<T>(data: Seq<T>, ids: Seq<u8>, n: int, id: int)
    requires
        n <= ids.len(),
        forall|i: int| 0 <= i < n ==> #[trigger] ids[i] != id,
    ensures
        symbols_of(data, ids, n, id) == Seq::<T>::empty(),
    decreases n,
{
    if n > 0 {
        lemma_symbols_of_none(data, ids, n - 1, id);
        assert(ids[n - 1] != id);
    }
}

/// Counts the symbols of each block type, starting the first `num_histograms` counts at zero.
pub fn BuildBlockHistograms<T: Symbol>(
    data: &[T],
    length: usize,
    block_ids: &[u8],
    num_histograms: usize,
    histograms: &mut Vec<Histogram>,
    size: usize,
)
    requires
        length <= block_ids@.len(),
        num_histograms <= old(histograms)@.len(),
        within(data@, length as int, size as nat),
        sized(views(old(histograms)@), old(histograms)@.len() as int, size as nat),
        forall|i: int| 0 <= i < length ==> #[trigger] block_ids@[i] < old(histograms)@.len(),
    ensures
        final(histograms)@.len() == old(histograms)@.len(),
        sized(views(final(histograms)@), final(histograms)@.len() as int, size as nat),
        forall|h: int|
            0 <= h < final(histograms)@.len() ==> (#[trigger] final(histograms)@[h])@ == (if h
                < num_histograms {
                HistogramView::cleared(size as nat)
            } else {
                old(histograms)@[h]@
            }).add_items(symbols_of(data@, block_ids@, length as int, h)),
{
    let mut h: usize = 0;
    while h < num_histograms
        invariant
            h <= num_histograms <= histograms@.len(),
            histograms@.len() == old(histograms)@.len(),
            sized(views(old(histograms)@), old(histograms)@.len() as int, size as nat),
            forall|k: int|
                0 <= k < histograms@.len() ==> (#[trigger] histograms@[k])@ == if k < h {
                    HistogramView::cleared(size as nat)
                } else {
                    old(histograms)@[k]@
                },
        decreases num_histograms - h,
    {
        let ghost before = histograms@;
        assert(views(old(histograms)@)[h as int].data.len() == size);
        HistogramClear(&mut histograms[h]);
        assert forall|j: int| 0 <= j < histograms@.len() && j != h implies (#[trigger] histograms@[
            j])@ == before[j]@ by {}
        h += 1;
    }
    let ghost cleared = histograms@;
    assert forall|k: int| 0 <= k < cleared.len() implies (#[trigger] cleared[k])@.data.len()
        == size by {
        assert(views(old(histograms)@)[k].data.len() == size);
    }
    let mut i: usize = 0;
    while i < length
        invariant
            i <= length <= block_ids@.len(),
            histograms@.len() == cleared.len(),
            within(data@, length as int, size as nat),
            forall|j: int| 0 <= j < length ==> #[trigger] block_ids@[j] < histograms@.len(),
            forall|k: int|
                0 <= k < histograms@.len() ==> (#[trigger] histograms@[k])@.data.len() == size,
            forall|k: int|
                0 <= k < histograms@.len() ==> (#[trigger] histograms@[k])@
                    == cleared[k]@.add_items(symbols_of(data@, block_ids@, i as int, k)),
        decreases length - i,
    {
        let ghost before = histograms@;
        let id: u8 = block_ids[i];
        let at: usize = data[i].bucket();
        HistogramAddItem(&mut histograms[id as usize], at);
        proof {
            assert(before[id as int]@.data.len() == size);
            assert forall|k: int| 0 <= k < histograms@.len() implies (#[trigger] histograms@[k])@
                == cleared[k]@.add_items(symbols_of(data@, block_ids@, i + 1, k)) by {
                if k == id {
                    let more = symbols_of(data@, block_ids@, i + 1, k);
                    assert(more.drop_last() =~= symbols_of(data@, block_ids@, i as int, k));
                } else {
                    assert(histograms@[k]@ == before[k]@);
                }
            }
        }
        i += 1;
    }
    assert forall|j: int| 0 <= j < histograms@.len() implies (#[trigger] views(
        histograms@,
    )[j]).data.len() == size by {
        assert(histograms@[j]@.data.len() == size);
    }
}

} // verus!
