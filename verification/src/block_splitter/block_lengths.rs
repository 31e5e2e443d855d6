//! Runs of equal ids, and merging them.
use super::find_blocks::run_count;
use vstd::prelude::*;

verus! {

/// The sum of a row of lengths.
pub open spec fn total(lengths: Seq<u32>) -> nat
    decreases lengths.len(),
{
    if lengths.len() == 0 {
        0
    } else {
        total(lengths.drop_last()) + lengths.last() as nat
    }
}

/// A part of the lengths sums to no more than all of them.
pub proof fn lemma_total_take(lengths: Seq<u32>, n: int)
    requires
        0 <= n <= lengths.len(),
    ensures
        total(lengths.take(n)) <= total(lengths),
        n < lengths.len() ==> total(lengths.take(n + 1)) == total(lengths.take(n)) + lengths[n],
    decreases lengths.len(),
{
    if n == lengths.len() {
        assert(lengths.take(n) =~= lengths);
    } else {
        lemma_total_take(lengths.drop_last(), n);
        assert(lengths.drop_last().take(n) =~= lengths.take(n));
        assert(lengths.take(n + 1).drop_last() =~= lengths.take(n));
    }
}

/// The lengths of the runs of equal ids, each counted in thirty-two bits.
pub open spec fn run_lengths(ids: Seq<u8>) -> Seq<u32>
    decreases ids.len(),
{
    if ids.len() == 0 {
        Seq::empty()
    } else {
        let before = run_lengths(ids.drop_last());
        if ids.len() >= 2 && ids[ids.len() - 2] == ids.last() {
            before.update(before.len() - 1, before.last().wrapping_add(1))
        } else {
            before.push(1)
        }
    }
}

/// Runs can be counted from either end.
pub proof fn lemma_run_count_last(ids: Seq<u8>)
    requires
        ids.len() >= 2,
    ensures
        run_count(ids) == run_count(ids.drop_last()) + if ids[ids.len() - 2] == ids.last() {
            0nat
        } else {
            1
        },
    decreases ids.len(),
{
    if ids.len() > 2 {
        lemma_run_count_last(ids.skip(1));
        assert(ids.skip(1).drop_last() =~= ids.drop_last().skip(1));
    } else {
        assert(ids.skip(1).len() == 1);
        assert(ids.drop_last().len() == 1);
        reveal_with_fuel(run_count, 2);
    }
}

/// There is a length for each run, and together they cover the ids, as long as those can be counted
/// in thirty-two bits.
pub proof fn lemma_run_lengths(ids: Seq<u8>)
    ensures
        run_lengths(ids).len() == run_count(ids),
        total(run_lengths(ids)) <= ids.len(),
        ids.len() <= u32::MAX ==> total(run_lengths(ids)) == ids.len(),
        ids.len() > 0 ==> run_count(ids) > 0,
        run_count(ids) <= ids.len(),
    decreases ids.len(),
{
    if ids.len() == 1 {
        assert(run_lengths(ids.drop_last()) =~= Seq::empty());
        assert(run_lengths(ids).drop_last() =~= Seq::empty());
        reveal_with_fuel(total, 2);
    } else if ids.len() >= 2 {
        let before = run_lengths(ids.drop_last());
        lemma_run_lengths(ids.drop_last());
        lemma_run_count_last(ids);
        if ids[ids.len() - 2] == ids.last() {
            let after = run_lengths(ids);
            assert(after.drop_last() =~= before.drop_last());
        } else {
            assert(run_lengths(ids).drop_last() =~= before);
        }
    }
}

proof fn lemma_run_count_take(ids: Seq<u8>, n: int)
    requires
        0 <= n <= ids.len(),
    ensures
        run_count(ids.take(n)) <= run_count(ids),
    decreases ids.len(),
{
    if n == ids.len() {
        assert(ids.take(n) =~= ids);
    } else {
        lemma_run_count_take(ids.drop_last(), n);
        assert(ids.drop_last().take(n) =~= ids.take(n));
        if ids.len() >= 2 {
            lemma_run_count_last(ids);
        }
    }
}

/// Run lengths with zeros behind them up to `n` entries.
pub open spec fn padded(lengths: Seq<u32>, n: int) -> Seq<u32> {
    Seq::new(
        n as nat,
        |i: int|
            if i < lengths.len() {
                lengths[i]
            } else {
                0
            },
    )
}

/// Padding with zeros adds nothing.
pub proof fn lemma_padded_total(lengths: Seq<u32>, n: int)
    requires
        lengths.len() <= n,
    ensures
        total(padded(lengths, n)) == total(lengths),
    decreases n,
{
    if n == lengths.len() {
        assert(padded(lengths, n) =~= lengths);
    } else {
        lemma_padded_total(lengths, n - 1);
        assert(padded(lengths, n).drop_last() =~= padded(lengths, n - 1));
    }
}

/// The lengths of the blocks that the first `length` ids make, in an array for `num_blocks`.
pub fn block_lengths(block_ids: &[u8], length: usize, num_blocks: usize) -> (lengths: Vec<u32>)
    requires
        length <= block_ids@.len(),
        run_count(block_ids@.take(length as int)) <= num_blocks,
    ensures
        lengths@ == padded(run_lengths(block_ids@.take(length as int)), num_blocks as int),
        total(lengths@) <= length,
        length <= u32::MAX ==> total(lengths@) == length,
{
    let ghost ids = block_ids@.take(length as int);
    let mut lengths: Vec<u32> = vec![0u32; num_blocks];
    let mut block_idx: usize = 0;
    let mut i: usize = 0;
    proof {
        assert(ids.take(0) =~= Seq::empty());
        assert(lengths@ =~= padded(run_lengths(ids.take(0)), num_blocks as int));
    }
    while i < length
        invariant
            i <= length <= block_ids@.len(),
            ids == block_ids@.take(length as int),
            run_count(ids) <= num_blocks,
            lengths@.len() == num_blocks,
            lengths@ == padded(run_lengths(ids.take(i as int)), num_blocks as int),
            block_idx == run_count(ids.take(i as int)) - if 0 < i < length && ids[i - 1]
                == ids[i as int] {
                1int
            } else {
                0
            },
        decreases length - i,
    {
        let ghost seen = ids.take(i as int);
        let ghost more = ids.take(i + 1);
        proof {
            assert(more.drop_last() =~= seen);
            lemma_run_lengths(seen);
            lemma_run_lengths(more);
            lemma_run_count_take(ids, i + 1);
            if i > 0 {
                lemma_run_count_last(more);
            }
        }
        let count: u32 = lengths[block_idx];
        lengths[block_idx] = count.wrapping_add(1);
        assert(lengths@ =~= padded(run_lengths(more), num_blocks as int));
        if i + 1 == length || block_ids[i] != block_ids[i + 1] {
            block_idx += 1;
        }
        i += 1;
    }
    proof {
        assert(ids.take(i as int) =~= ids);
        lemma_run_lengths(ids);
        lemma_padded_total(run_lengths(ids), num_blocks as int);
    }
    lengths
}

/// Blocks after merging: a symbol and a length each.
#[verifier::ext_equal]
pub struct Merged {
    pub symbols: Seq<u32>,
    pub lengths: Seq<u32>,
}

/// Merges neighbours with equal symbols.
pub open spec fn merged(symbols: Seq<u32>, lengths: Seq<u32>) -> Merged
    decreases symbols.len(),
{
    if symbols.len() == 0 {
        Merged { symbols: Seq::empty(), lengths: Seq::empty() }
    } else {
        let n = symbols.len() as int;
        let before = merged(symbols.drop_last(), lengths.take(n - 1));
        if n >= 2 && symbols[n - 2] == symbols[n - 1] {
            Merged {
                symbols: before.symbols,
                lengths: before.lengths.update(
                    before.lengths.len() - 1,
                    before.lengths.last().wrapping_add(lengths[n - 1]),
                ),
            }
        } else {
            Merged {
                symbols: before.symbols.push(symbols[n - 1]),
                lengths: before.lengths.push(lengths[n - 1]),
            }
        }
    }
}

/// Merging leaves no neighbours with equal symbols and keeps the last symbol.
pub proof fn lemma_merged_symbols(symbols: Seq<u32>, lengths: Seq<u32>)
    requires
        symbols.len() <= lengths.len(),
    ensures
        merged(symbols, lengths).symbols.len() == merged(symbols, lengths).lengths.len(),
        merged(symbols, lengths).symbols.len() <= symbols.len(),
        symbols.len() > 0 ==> merged(symbols, lengths).symbols.len() > 0 && merged(
            symbols,
            lengths,
        ).symbols.last() == symbols.last(),
        forall|i: int|
            0 < i < merged(symbols, lengths).symbols.len() ==> #[trigger] merged(
                symbols,
                lengths,
            ).symbols[i] != merged(symbols, lengths).symbols[i - 1],
    decreases symbols.len(),
{
    if symbols.len() > 0 {
        let n = symbols.len() as int;
        lemma_merged_symbols(symbols.drop_last(), lengths.take(n - 1));
    }
}

/// Merging keeps the sum of the lengths, as long as it can be counted in thirty-two bits.
pub proof fn lemma_merged_total(symbols: Seq<u32>, lengths: Seq<u32>)
    requires
        symbols.len() == lengths.len(),
        total(lengths) <= u32::MAX,
    ensures
        total(merged(symbols, lengths).lengths) == total(lengths),
    decreases symbols.len(),
{
    if symbols.len() > 0 {
        let n = symbols.len() as int;
        assert(lengths.take(n - 1) =~= lengths.drop_last());
        lemma_merged_total(symbols.drop_last(), lengths.take(n - 1));
        lemma_merged_symbols(symbols.drop_last(), lengths.take(n - 1));
        let before = merged(symbols.drop_last(), lengths.take(n - 1));
        let after = merged(symbols, lengths);
        if n >= 2 && symbols[n - 2] == symbols[n - 1] {
            assert(after.lengths.drop_last() =~= before.lengths.drop_last());
        } else {
            assert(after.lengths.drop_last() =~= before.lengths);
        }
    }
}

/// No run is empty, as long as its ids can be counted in thirty-two bits.
pub proof fn lemma_run_lengths_positive(ids: Seq<u8>)
    requires
        ids.len() <= u32::MAX,
    ensures
        forall|i: int| 0 <= i < run_lengths(ids).len() ==> #[trigger] run_lengths(ids)[i] > 0,
    decreases ids.len(),
{
    if ids.len() > 0 {
        lemma_run_lengths_positive(ids.drop_last());
        lemma_run_lengths(ids.drop_last());
        let before = run_lengths(ids.drop_last());
        if ids.len() >= 2 && ids[ids.len() - 2] == ids.last() {
            assert(total(before) == total(before.drop_last()) + before.last());
            assert(before.last() <= ids.len() - 1);
        }
    }
}

/// No merged block is empty if none of those that were merged is.
pub proof fn lemma_merged_positive(symbols: Seq<u32>, lengths: Seq<u32>)
    requires
        symbols.len() == lengths.len(),
        total(lengths) <= u32::MAX,
        forall|i: int| 0 <= i < lengths.len() ==> #[trigger] lengths[i] > 0,
    ensures
        forall|i: int|
            0 <= i < merged(symbols, lengths).lengths.len() ==> #[trigger] merged(
                symbols,
                lengths,
            ).lengths[i] > 0,
    decreases symbols.len(),
{
    if symbols.len() > 0 {
        let n = symbols.len() as int;
        let rest = lengths.take(n - 1);
        assert(rest =~= lengths.drop_last());
        assert forall|i: int| 0 <= i < rest.len() implies #[trigger] rest[i] > 0 by {
            assert(lengths[i] > 0);
        }
        lemma_merged_positive(symbols.drop_last(), rest);
        lemma_merged_total(symbols.drop_last(), rest);
        lemma_merged_symbols(symbols.drop_last(), rest);
        let before = merged(symbols.drop_last(), rest);
        assert(lengths[n - 1] > 0);
        if n >= 2 && symbols[n - 2] == symbols[n - 1] {
            assert(total(before.lengths) == total(before.lengths.drop_last())
                + before.lengths.last());
            assert(before.lengths.last() + lengths[n - 1] <= total(lengths));
        }
    }
}

/// Position `p` separates two different ids.
pub open spec fn is_cut(ids: Seq<u8>, p: int) -> bool {
    &&& 0 < p < ids.len()
    &&& ids[p - 1] != ids[p]
}

/// Every run but the first starts at a cut.
pub proof fn lemma_run_cuts(ids: Seq<u8>)
    requires
        ids.len() <= u32::MAX,
    ensures
        forall|k: int|
            0 < k < run_lengths(ids).len() ==> is_cut(
                ids,
                total(#[trigger] run_lengths(ids).take(k)) as int,
            ),
    decreases ids.len(),
{
    if ids.len() > 0 {
        let rest = ids.drop_last();
        let before = run_lengths(rest);
        let after = run_lengths(ids);
        lemma_run_cuts(rest);
        lemma_run_lengths(rest);
        assert forall|k: int| 0 < k < after.len() implies is_cut(
            ids,
            total(#[trigger] after.take(k)) as int,
        ) by {
            if k < before.len() {
                assert(after.take(k) =~= before.take(k));
                let p = total(before.take(k)) as int;
                assert(is_cut(rest, p));
                assert(rest[p - 1] == ids[p - 1] && rest[p] == ids[p]);
            } else {
                assert(after.take(k) =~= before);
            }
        }
    }
}

/// Every merged block but the first starts where one of those that were merged starts.
pub proof fn lemma_merged_start(symbols: Seq<u32>, lengths: Seq<u32>, k: int) -> (j: int)
    requires
        symbols.len() == lengths.len(),
        total(lengths) <= u32::MAX,
        0 < k < merged(symbols, lengths).lengths.len(),
    ensures
        0 < j < lengths.len(),
        symbols[j - 1] != symbols[j],
        total(merged(symbols, lengths).lengths.take(k)) == total(lengths.take(j)),
    decreases symbols.len(),
{
    let n = symbols.len() as int;
    let rest = lengths.take(n - 1);
    assert(rest =~= lengths.drop_last());
    lemma_merged_symbols(symbols.drop_last(), rest);
    let before = merged(symbols.drop_last(), rest);
    let after = merged(symbols, lengths);
    if k < before.lengths.len() {
        assert(after.lengths.take(k) =~= before.lengths.take(k));
        let j = lemma_merged_start(symbols.drop_last(), rest, k);
        assert(rest.take(j) =~= lengths.take(j));
        j
    } else {
        assert(after.lengths.take(k) =~= before.lengths);
        lemma_merged_total(symbols.drop_last(), rest);
        n - 1
    }
}

/// What merging the runs of `ids` gives: every block starts at a cut of the ids, none is empty, and they
/// cover the ids.
pub proof fn lemma_split_cuts(ids: Seq<u8>, symbols: Seq<u32>)
    requires
        ids.len() <= u32::MAX,
        symbols.len() == run_lengths(ids).len(),
    ensures
        ({
            let lengths = merged(symbols, run_lengths(ids)).lengths;
            &&& forall|k: int|
                0 < k < lengths.len() ==> is_cut(ids, total(#[trigger] lengths.take(k)) as int)
            &&& forall|i: int| 0 <= i < lengths.len() ==> #[trigger] lengths[i] > 0
            &&& total(lengths) == ids.len()
        }),
{
    let runs = run_lengths(ids);
    let lengths = merged(symbols, runs).lengths;
    lemma_run_lengths(ids);
    lemma_run_lengths_positive(ids);
    lemma_run_cuts(ids);
    lemma_merged_positive(symbols, runs);
    lemma_merged_total(symbols, runs);
    assert forall|k: int| 0 < k < lengths.len() implies is_cut(
        ids,
        total(#[trigger] lengths.take(k)) as int,
    ) by {
        let j = lemma_merged_start(symbols, runs, k);
        assert(is_cut(ids, total(runs.take(j)) as int));
    }
}

/// Merging changes neither which symbols occur nor the order in which they come up first.
pub proof fn lemma_merged_first_use(symbols: Seq<u32>, lengths: Seq<u32>)
    requires
        symbols.len() <= lengths.len(),
    ensures
        super::remap::first_use(merged(symbols, lengths).symbols) == super::remap::first_use(
            symbols,
        ),
    decreases symbols.len(),
{
    if symbols.len() > 0 {
        let n = symbols.len() as int;
        let rest = symbols.drop_last();
        lemma_merged_first_use(rest, lengths.take(n - 1));
        let before = merged(rest, lengths.take(n - 1));
        if n >= 2 && symbols[n - 2] == symbols[n - 1] {
            super::remap::lemma_first_use(rest);
            assert(rest[n - 2] == symbols.last());
            assert(rest.contains(symbols.last()));
        } else {
            assert(merged(symbols, lengths).symbols.drop_last() =~= before.symbols);
        }
    }
}

} // verus!
