//! Laws of counting symbols.
use crate::histogram::{
    Histogram, HistogramAddHistogram, HistogramAddItem, HistogramAddVector, HistogramClear,
    HistogramView, Symbol,
};
use vstd::prelude::*;

verus! {

/// How many of `items` belong to bucket `at`.
pub open spec fn occurrences<T: Symbol>(items: Seq<T>, at: int) -> nat
    decreases items.len(),
{
    if items.len() == 0 {
        0
    } else {
        occurrences(items.drop_last(), at) + if items.last().spec_bucket() == at {
            1nat
        } else {
            0
        }
    }
}

/// Counting symbols adds to each bucket how often its symbol occurs, and to the total how many there
/// are.
pub proof fn law_counts<T: Symbol>(start: HistogramView, items: Seq<T>, at: int)
    requires
        forall|i: int|
            0 <= i < items.len() ==> (#[trigger] items[i]).spec_bucket() < start.data.len(),
        0 <= at < start.data.len(),
        start.data[at] + occurrences(items, at) <= u32::MAX,
        start.total_count + items.len() <= usize::MAX,
    ensures
        start.add_items(items).data.len() == start.data.len(),
        start.add_items(items).data[at] == start.data[at] + occurrences(items, at),
        start.add_items(items).total_count == start.total_count + items.len(),
    decreases items.len(),
{
    if items.len() > 0 {
        let rest = items.drop_last();
        assert forall|i: int| 0 <= i < rest.len() implies (#[trigger] rest[i]).spec_bucket()
            < start.data.len() by {
            assert(items[i].spec_bucket() < start.data.len());
        }
        law_counts(start, rest, at);
        assert(items[items.len() - 1].spec_bucket() < start.data.len());
    }
}

proof fn lemma_next_total(total: usize, start: int, n: int)
    requires
        total == (start + n) % (usize::MAX + 1),
    ensures
        total.wrapping_add(1) == (start + n + 1) % (usize::MAX + 1),
{
    let range = usize::MAX + 1;
    vstd::arithmetic::div_mod::lemma_add_mod_noop_right(1, start + n, range);
    if total < usize::MAX {
        vstd::arithmetic::div_mod::lemma_small_mod((total + 1) as nat, range as nat);
    } else {
        vstd::arithmetic::div_mod::lemma_mod_self_0(range);
    }
}

/// However many symbols are counted, a bucket has what it had and how often its symbol occurs, modulo
/// its range, and so has the total.
pub proof fn law_counts_modulo<T: Symbol>(start: HistogramView, items: Seq<T>, at: int)
    requires
        forall|i: int|
            0 <= i < items.len() ==> (#[trigger] items[i]).spec_bucket() < start.data.len(),
        0 <= at < start.data.len(),
    ensures
        start.add_items(items).data.len() == start.data.len(),
        start.add_items(items).data[at] == (start.data[at] + occurrences(items, at)) % 0x1_0000_0000,
        start.add_items(items).total_count == (start.total_count + items.len()) % (usize::MAX + 1),
    decreases items.len(),
{
    if items.len() > 0 {
        let rest = items.drop_last();
        assert forall|i: int| 0 <= i < rest.len() implies (#[trigger] rest[i]).spec_bucket()
            < start.data.len() by {
            assert(items[i].spec_bucket() < start.data.len());
        }
        law_counts_modulo(start, rest, at);
        assert(items[items.len() - 1].spec_bucket() < start.data.len());
        lemma_next_total(
            start.add_items(rest).total_count,
            start.total_count as int,
            rest.len() as int,
        );
    } else {
        vstd::arithmetic::div_mod::lemma_small_mod(
            start.total_count as nat,
            (usize::MAX + 1) as nat,
        );
    }
}

/// Counting the symbols of a row adds to each bucket how often its symbol occurs.
pub proof fn law_add_vector<T: Symbol>(histogram: &mut Histogram, items: &[T], at: int)
    requires
        forall|i: int|
            0 <= i < items@.len() ==> (#[trigger] items@[i]).spec_bucket() < old(
                histogram,
            )@.data.len(),
        0 <= at < old(histogram).data_@.len(),
        call_ensures(HistogramAddVector::<T>, (histogram, items), ()),
    ensures
        final(histogram).data_@.len() == old(histogram).data_@.len(),
        final(histogram).data_@[at] == (old(histogram).data_@[at] + occurrences(items@, at))
            % 0x1_0000_0000,
        final(histogram).total_count_ == (old(histogram).total_count_ + items@.len()) % (usize::MAX
            + 1),
{
    law_counts_modulo(old(histogram)@, items@, at);
}

/// Counting one symbol adds one to its bucket and to the total, and touches no other bucket.
pub proof fn law_add_item(histogram: &mut Histogram, val: usize, at: int)
    requires
        val < old(histogram).data_@.len(),
        0 <= at < old(histogram).data_@.len(),
        call_ensures(HistogramAddItem, (histogram, val), ()),
    ensures
        final(histogram).data_@.len() == old(histogram).data_@.len(),
        at != val ==> final(histogram).data_@[at] == old(histogram).data_@[at],
        at == val ==> final(histogram).data_@[at] == (old(histogram).data_@[at] + 1) % 0x1_0000_0000,
        final(histogram).total_count_ == (old(histogram).total_count_ + 1) % (usize::MAX + 1),
{
    vstd::arithmetic::div_mod::lemma_small_mod(
        old(histogram).total_count_ as nat,
        (usize::MAX + 1) as nat,
    );
    lemma_next_total(old(histogram).total_count_, old(histogram).total_count_ as int, 0);
}

/// Taking one histogram into another adds them bucket by bucket, and their totals, each modulo its range.
pub proof fn law_add_histogram(histogram: &mut Histogram, other: &Histogram, at: int)
    requires
        old(histogram).data_@.len() <= other.data_@.len(),
        0 <= at < old(histogram).data_@.len(),
        call_ensures(HistogramAddHistogram, (histogram, other), ()),
    ensures
        final(histogram).data_@.len() == old(histogram).data_@.len(),
        final(histogram).data_@[at] == (old(histogram).data_@[at] + other.data_@[at])
            % 0x1_0000_0000,
        final(histogram).total_count_ == (old(histogram).total_count_ + other.total_count_) % (
        usize::MAX + 1),
{
    let range = usize::MAX + 1;
    let total = old(histogram).total_count_ + other.total_count_;
    if total < range {
        vstd::arithmetic::div_mod::lemma_small_mod(total as nat, range as nat);
    } else {
        vstd::arithmetic::div_mod::lemma_small_mod((total - range) as nat, range as nat);
        vstd::arithmetic::div_mod::lemma_mod_add_multiples_vanish(total - range, range);
    }
}

/// A cleared histogram has counted nothing in any bucket, and has as many buckets as before.
pub proof fn law_clear(histogram: &mut Histogram)
    requires
        call_ensures(HistogramClear, (histogram,), ()),
    ensures
        final(histogram).data_@.len() == old(histogram).data_@.len(),
        final(histogram).total_count_ == 0,
        forall|i: int|
            0 <= i < final(histogram).data_@.len() ==> #[trigger] final(histogram).data_@[i] == 0,
{
}

/// A new histogram has the buckets that were asked for, and has counted nothing.
pub proof fn law_new_histogram(size: usize, histogram: Histogram)
    requires
        call_ensures(Histogram::new, (size,), histogram),
    ensures
        histogram.data_@.len() == size,
        histogram.total_count_ == 0,
        forall|i: int| 0 <= i < size ==> #[trigger] histogram.data_@[i] == 0,
{
}

/// A duplicate has the same counts.
pub proof fn law_duplicate(histogram: Histogram, copy: Histogram)
    requires
        call_ensures(Histogram::duplicate, (&histogram,), copy),
    ensures
        copy.data_@ == histogram.data_@,
        copy.total_count_ == histogram.total_count_,
{
}

/// A byte or a short number belongs to the bucket of its own value.
pub proof fn law_buckets(byte: u8, number: u16)
    ensures
        byte.spec_bucket() == byte,
        number.spec_bucket() == number,
{
}

} // verus!
