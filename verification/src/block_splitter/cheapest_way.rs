//! Why the traced ids are the cheapest way through the histograms.
//!
//! The model here has whole numbers for costs. A search carries from symbol to symbol what each
//! histogram costs more than the cheapest one, but no more than a change of histogram would cost.
use vstd::prelude::*;

verus! {

/// What each symbol costs with each of `n` histograms, and what a change of histogram behind it costs.
pub struct CostModel {
    pub n: nat,
    pub inserts: Seq<Seq<int>>,
    pub switch: Seq<int>,
}

impl CostModel {
    /// There is a cost for every symbol and histogram, and every change costs something.
    pub open spec fn wf(self) -> bool {
        &&& self.n > 0
        &&& self.switch.len() == self.inserts.len()
        &&& forall|i: int| 0 <= i < self.switch.len() ==> #[trigger] self.switch[i] > 0
    }

    /// What histogram `h` carries over to symbol `i`.
    pub open spec fn carried(self, i: int, h: int) -> int
        decreases i, 0int,
    {
        if i <= 0 {
            0
        } else {
            let excess = self.reach(i - 1, h) - self.least(i - 1, self.n as int);
            if excess < self.switch[i - 1] {
                excess
            } else {
                self.switch[i - 1]
            }
        }
    }

    /// What it costs to end up in histogram `h` with symbol `i`.
    pub open spec fn reach(self, i: int, h: int) -> int
        decreases i, 1int,
    {
        self.carried(i, h) + self.inserts[i][h]
    }

    /// The least of what it costs to end up in one of the first `k` histograms with symbol `i`.
    pub open spec fn least(self, i: int, k: int) -> int
        decreases i, if k > 0 { 2 + k } else { 2 },
    {
        if k <= 1 {
            self.reach(i, 0)
        } else if self.reach(i, k - 1) < self.least(i, k - 1) {
            self.reach(i, k - 1)
        } else {
            self.least(i, k - 1)
        }
    }

    /// The least costs of the first `i` symbols, which were taken off on the way.
    pub open spec fn base(self, i: int) -> int
        decreases i,
    {
        if i <= 0 {
            0
        } else {
            self.base(i - 1) + self.least(i - 1, self.n as int)
        }
    }

    /// What the first `k` symbols cost if each is coded with the histogram that `ids` names.
    pub open spec fn price(self, ids: Seq<u8>, k: int) -> int
        decreases k,
    {
        if k <= 0 {
            0
        } else {
            self.price(ids, k - 1) + self.inserts[k - 1][ids[k - 1] as int] + if k >= 2 && ids[k - 2]
                != ids[k - 1] {
                self.switch[k - 2]
            } else {
                0
            }
        }
    }

    /// The ids name histograms that exist.
    pub open spec fn names(self, ids: Seq<u8>) -> bool {
        &&& ids.len() == self.inserts.len()
        &&& forall|i: int| 0 <= i < ids.len() ==> #[trigger] ids[i] < self.n
    }

    /// `chosen` holds a cheapest histogram for each symbol, and `switches` tells which histograms are
    /// at least a change away from it.
    pub open spec fn found_by(self, chosen: Seq<u8>, switches: spec_fn(int, u8) -> bool) -> bool {
        &&& self.names(chosen)
        &&& forall|i: int|
            0 <= i < chosen.len() ==> self.reach(i, #[trigger] chosen[i] as int) == self.least(
                i,
                self.n as int,
            )
        &&& forall|i: int, h: u8|
            0 <= i < chosen.len() && h < self.n ==> (#[trigger] switches(i, h) <==> self.reach(
                i,
                h as int,
            ) - self.least(i, self.n as int) >= self.switch[i])
    }

    proof fn lemma_least(self, i: int, k: int, h: int)
        requires
            0 <= h < k,
        ensures
            self.least(i, k) <= self.reach(i, h),
        decreases k,
    {
        if h < k - 1 {
            self.lemma_least(i, k - 1, h);
        }
    }

    /// No way of coding the symbols costs less than the search says.
    proof fn lemma_no_cheaper(self, ids: Seq<u8>, i: int)
        requires
            self.wf(),
            self.names(ids),
            0 <= i < ids.len(),
        ensures
            self.price(ids, i + 1) >= self.base(i) + self.reach(i, ids[i] as int),
        decreases i,
    {
        if i > 0 {
            self.lemma_no_cheaper(ids, i - 1);
            self.lemma_least(i - 1, self.n as int, ids[i - 1] as int);
        } else {
            reveal_with_fuel(CostModel::price, 2);
        }
    }

    proof fn lemma_traced_names(
        self,
        chosen: Seq<u8>,
        switches: spec_fn(int, u8) -> bool,
        i: int,
    )
        requires
            self.names(chosen),
            0 <= i < chosen.len(),
        ensures
            super::find_blocks::traced_id(chosen, switches, i) < self.n,
        decreases chosen.len() - i,
    {
        if i < chosen.len() - 1 {
            self.lemma_traced_names(chosen, switches, i + 1);
        }
    }

    /// The traced ids cost what the search says.
    proof fn lemma_traced_price(
        self,
        chosen: Seq<u8>,
        switches: spec_fn(int, u8) -> bool,
        i: int,
    )
        requires
            self.wf(),
            self.found_by(chosen, switches),
            0 <= i < chosen.len(),
        ensures
            self.price(super::find_blocks::traced(chosen, switches), i + 1) == self.base(i)
                + self.reach(i, super::find_blocks::traced_id(chosen, switches, i) as int),
        decreases i,
    {
        let ids = super::find_blocks::traced(chosen, switches);
        if i > 0 {
            self.lemma_traced_price(chosen, switches, i - 1);
            self.lemma_traced_names(chosen, switches, i);
            let behind = super::find_blocks::traced_id(chosen, switches, i);
            assert(ids[i] == behind);
            assert(switches(i - 1, behind) <==> self.reach(i - 1, behind as int) - self.least(
                i - 1,
                self.n as int,
            ) >= self.switch[i - 1]);
            assert(self.reach(i - 1, chosen[i - 1] as int) == self.least(i - 1, self.n as int));
            assert(self.switch[i - 1] > 0);
        } else {
            reveal_with_fuel(CostModel::price, 2);
        }
    }

    /// Going back from the last symbol as the search has marked the changes gives the cheapest ids:
    /// no others cost less.
    pub proof fn lemma_traced_is_cheapest(
        self,
        chosen: Seq<u8>,
        switches: spec_fn(int, u8) -> bool,
        other: Seq<u8>,
    )
        requires
            self.wf(),
            self.found_by(chosen, switches),
            self.names(other),
            chosen.len() > 0,
        ensures
            self.price(super::find_blocks::traced(chosen, switches), chosen.len() as int)
                <= self.price(other, other.len() as int),
    {
        let last = chosen.len() - 1;
        self.lemma_traced_price(chosen, switches, last);
        self.lemma_no_cheaper(other, last);
        self.lemma_least(last, self.n as int, other[last] as int);
        assert(self.reach(last, chosen[last] as int) == self.least(last, self.n as int));
    }
}

} // verus!
