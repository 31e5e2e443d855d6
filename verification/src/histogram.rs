//! Histograms of symbols.
use vstd::prelude::*;

verus! {

/// A symbol that a histogram counts.
pub trait Symbol: Copy {
    /// The bucket of the symbol.
    spec fn spec_bucket(self) -> nat;

    /// The bucket of the symbol.
    fn bucket(self) -> (at: usize)
        ensures
            at == self.spec_bucket(),
    ;
}

impl Symbol for u8 {
    open spec fn spec_bucket(self) -> nat {
        self as nat
    }

    fn bucket(self) -> (at: usize) {
        self as usize
    }
}

impl Symbol for u16 {
    open spec fn spec_bucket(self) -> nat {
        self as nat
    }

    fn bucket(self) -> (at: usize) {
        self as usize
    }
}

/// Counts of symbols, one bucket each, and how many symbols were counted in all.
#[derive(Debug)]
pub struct Histogram {
    pub data_: Vec<u32>,
    pub total_count_: usize,
}

/// What a histogram holds.
#[verifier::ext_equal]
pub struct HistogramView {
    pub data: Seq<u32>,
    pub total_count: usize,
}

impl View for Histogram {
    type V = HistogramView;

    open spec fn view(&self) -> HistogramView {
        HistogramView { data: self.data_@, total_count: self.total_count_ }
    }
}

/// Two rows of counts added bucket by bucket, wrapping around.
pub open spec fn sum_of(a: Seq<u32>, b: Seq<u32>) -> Seq<u32> {
    Seq::new(a.len(), |i: int| a[i].wrapping_add(b[i]))
}

impl HistogramView {
    /// A histogram of `size` buckets that has counted nothing.
    pub open spec fn cleared(size: nat) -> HistogramView {
        HistogramView { data: Seq::new(size, |i: int| 0), total_count: 0 }
    }

    /// Counts one symbol more.
    pub open spec fn add_item(self, at: int) -> HistogramView {
        HistogramView {
            data: self.data.update(at, self.data[at].wrapping_add(1)),
            total_count: self.total_count.wrapping_add(1),
        }
    }

    /// Counts the symbols of `items` one after the other.
    pub open spec fn add_items<T: Symbol>(self, items: Seq<T>) -> HistogramView
        decreases items.len(),
    {
        if items.len() == 0 {
            self
        } else {
            self.add_items(items.drop_last()).add_item(items.last().spec_bucket() as int)
        }
    }

    /// Takes the counts of `other` in.
    pub open spec fn add_histogram(self, other: HistogramView) -> HistogramView {
        HistogramView {
            data: sum_of(self.data, other.data),
            total_count: self.total_count.wrapping_add(other.total_count),
        }
    }

    /// Counting two runs of symbols is counting them as one.
    pub proof fn lemma_add_items_concat<T: Symbol>(self, first: Seq<T>, second: Seq<T>)
        ensures
            self.add_items(first).add_items(second) == self.add_items(first + second),
        decreases second.len(),
    {
        if second.len() == 0 {
            assert(first + second =~= first);
        } else {
            self.lemma_add_items_concat(first, second.drop_last());
            assert((first + second).drop_last() =~= first + second.drop_last());
        }
    }
}

impl Histogram {
    /// A histogram of `size` buckets that has counted nothing.
    pub fn new(size: usize) -> (histogram: Histogram)
        ensures
            histogram@ == HistogramView::cleared(size as nat),
    {
        let histogram = Histogram { data_: vec![0u32; size], total_count_: 0 };
        assert(histogram@ =~= HistogramView::cleared(size as nat));
        histogram
    }

    /// Another histogram with the same counts.
    pub fn duplicate(&self) -> (copy: Histogram)
        ensures
            copy@ == self@,
    {
        let data_ = self.data_.clone();
        let copy = Histogram { data_, total_count_: self.total_count_ };
        assert(copy@ =~= self@);
        copy
    }
}

/// Forgets every count.
pub fn HistogramClear(histogram: &mut Histogram)
    ensures
        final(histogram)@ == HistogramView::cleared(old(histogram)@.data.len()),
{
    let mut i: usize = 0;
    while i < histogram.data_.len()
        invariant
            histogram.data_@.len() == old(histogram).data_@.len(),
            i <= histogram.data_@.len(),
            forall|j: int| 0 <= j < i ==> #[trigger] histogram.data_@[j] == 0,
        decreases histogram.data_@.len() - i,
    {
        histogram.data_[i] = 0;
        i += 1;
    }
    histogram.total_count_ = 0;
    assert(histogram@ =~= HistogramView::cleared(old(histogram)@.data.len()));
}

/// Counts one symbol, which belongs to bucket `val`.
pub fn HistogramAddItem(histogram: &mut Histogram, val: usize)
    requires
        val < old(histogram)@.data.len(),
    ensures
        final(histogram)@ == old(histogram)@.add_item(val as int),
{
    let count: u32 = histogram.data_[val];
    histogram.data_[val] = count.wrapping_add(1);
    histogram.total_count_ = histogram.total_count_.wrapping_add(1);
}

/// Counts the symbols of `items`.
pub fn HistogramAddVector<T: Symbol>(histogram: &mut Histogram, items: &[T])
    requires
        forall|i: int|
            0 <= i < items@.len() ==> (#[trigger] items@[i]).spec_bucket() < old(
                histogram,
            )@.data.len(),
    ensures
        final(histogram)@ == old(histogram)@.add_items(items@),
        final(histogram)@.data.len() == old(histogram)@.data.len(),
{
    let mut i: usize = 0;
    assert(items@.take(0) =~= Seq::empty());
    while i < items.len()
        invariant
            i <= items@.len(),
            histogram@.data.len() == old(histogram)@.data.len(),
            forall|j: int|
                0 <= j < items@.len() ==> (#[trigger] items@[j]).spec_bucket() < old(
                    histogram,
                )@.data.len(),
            histogram@ == old(histogram)@.add_items(items@.take(i as int)),
        decreases items@.len() - i,
    {
        HistogramAddItem(histogram, items[i].bucket());
        assert(items@.take(i + 1).drop_last() =~= items@.take(i as int));
        i += 1;
    }
    assert(items@.take(i as int) =~= items@);
}

/// Takes the counts of `other` into `histogram`.
pub fn HistogramAddHistogram(histogram: &mut Histogram, other: &Histogram)
    requires
        old(histogram)@.data.len() <= other@.data.len(),
    ensures
        final(histogram)@ == old(histogram)@.add_histogram(other@),
{
    histogram.total_count_ = histogram.total_count_.wrapping_add(other.total_count_);
    let mut i: usize = 0;
    while i < histogram.data_.len()
        invariant
            histogram.data_@.len() == old(histogram).data_@.len(),
            histogram.data_@.len() <= other.data_@.len(),
            histogram.total_count_ == old(histogram).total_count_.wrapping_add(
                other.total_count_,
            ),
            i <= histogram.data_@.len(),
            forall|j: int|
                0 <= j < i ==> #[trigger] histogram.data_@[j] == old(histogram).data_@[j].wrapping_add(
                    other.data_@[j],
                ),
            forall|j: int|
                i <= j < histogram.data_@.len() ==> #[trigger] histogram.data_@[j] == old(
                    histogram,
                ).data_@[j],
        decreases histogram.data_@.len() - i,
    {
        let count: u32 = histogram.data_[i];
        histogram.data_[i] = count.wrapping_add(other.data_[i]);
        i += 1;
    }
    assert(histogram@ =~= old(histogram)@.add_histogram(other@));
}

} // verus!
