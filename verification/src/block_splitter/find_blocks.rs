//! Which histogram each symbol is coded with: the cheapest way through the histograms, where every
//! change of histogram has a price.
//!
//! Costs come in as keys: a larger cost has a larger key, and equal costs have equal keys.
use crate::vectorization::{min_lane_u32x8, min_lane_u64x8};
use vstd::prelude::*;

verus! {

/// Histogram `k` is the cheapest, and the first of those that are. It costs less than `ceiling`.
pub open spec fn is_cheapest(costs: Seq<u64>, ceiling: u64, k: int) -> bool {
    &&& 0 <= k < costs.len()
    &&& costs[k] < ceiling
    &&& forall|j: int| 0 <= j < costs.len() ==> costs[k] <= #[trigger] costs[j]
    &&& forall|j: int| 0 <= j < k ==> costs[k] < #[trigger] costs[j]
}

/// No histogram costs less than `ceiling`.
pub open spec fn none_below(costs: Seq<u64>, ceiling: u64) -> bool {
    forall|j: int| 0 <= j < costs.len() ==> ceiling <= #[trigger] costs[j]
}

/// There is at most one cheapest histogram that comes first.
pub proof fn lemma_cheapest_unique(costs: Seq<u64>, ceiling: u64, a: int, b: int)
    requires
        is_cheapest(costs, ceiling, a),
        is_cheapest(costs, ceiling, b),
    ensures
        a == b,
{
    assert(costs[a] <= costs[b] && costs[b] <= costs[a]);
}

/// What lane `lane` knows after `rows` rows of eight: its cheapest histogram so far, the first of
/// those that are, or none.
spec fn lane_knows(costs: Seq<u64>, ceiling: u64, rows: int, lane: int, least: u64, id: u32) -> bool {
    if id == u32::MAX {
        &&& least == ceiling
        &&& forall|w: int| 0 <= w < rows ==> ceiling <= #[trigger] costs[8 * w + lane]
    } else {
        &&& exists|w: int| 0 <= w < rows && id == #[trigger] (8 * w + lane)
        &&& costs[id as int] == least
        &&& least < ceiling
        &&& forall|w: int| 0 <= w < rows ==> least <= #[trigger] costs[8 * w + lane]
        &&& forall|w: int|
            0 <= w < rows && 8 * w + lane < id ==> least < #[trigger] costs[8 * w + lane]
    }
}

/// Takes row `row` of eight costs into the lanes.
fn update_lanes(
    costs: &[u64],
    row: usize,
    least: &mut [u64; 8],
    ids: &mut [u32; 8],
    Ghost(ceiling): Ghost<u64>,
)
    requires
        8 * row + 8 <= costs@.len() <= 256,
        forall|l: int|
            0 <= l < 8 ==> lane_knows(
                costs@,
                ceiling,
                row as int,
                l,
                #[trigger] old(least)@[l],
                old(ids)@[l],
            ),
    ensures
        forall|l: int|
            0 <= l < 8 ==> lane_knows(
                costs@,
                ceiling,
                row + 1,
                l,
                #[trigger] final(least)@[l],
                final(ids)@[l],
            ),
{
    let mut lane: usize = 0;
    while lane < 8
        invariant
            lane <= 8,
            8 * row + 8 <= costs@.len() <= 256,
            forall|l: int|
                0 <= l < 8 ==> lane_knows(
                    costs@,
                    ceiling,
                    if l < lane { row + 1 } else { row as int },
                    l,
                    #[trigger] least@[l],
                    ids@[l],
                ),
        decreases 8 - lane,
    {
        let at: usize = 8 * row + lane;
        let ghost before = (least@[lane as int], ids@[lane as int]);
        assert(lane_knows(costs@, ceiling, row as int, lane as int, before.0, before.1));
        if costs[at] < least[lane] {
            least[lane] = costs[at];
            ids[lane] = at as u32;
            assert(at == 8 * (row as int) + lane);
            assert(lane_knows(
                costs@,
                ceiling,
                row + 1,
                lane as int,
                least@[lane as int],
                ids@[lane as int],
            ));
        } else {
            assert(lane_knows(costs@, ceiling, row + 1, lane as int, before.0, before.1)) by {
                if before.1 != u32::MAX {
                    let w = choose|w: int|
                        0 <= w < row && before.1 == #[trigger] (8 * w + lane as int);
                    assert(0 <= w < row + 1 && before.1 == 8 * w + lane as int);
                }
            }
        }
        lane += 1;
    }
}

/// The ids of the lanes whose least cost is `best`, and the largest number for the others.
fn ids_of_best(least: &[u64; 8], ids: &[u32; 8], best: u64) -> (selected: [u32; 8])
    ensures
        forall|l: int|
            0 <= l < 8 ==> #[trigger] selected@[l] == if least@[l] == best {
                ids@[l]
            } else {
                u32::MAX
            },
{
    let mut selected: [u32; 8] = [u32::MAX; 8];
    let mut lane: usize = 0;
    while lane < 8
        invariant
            lane <= 8,
            forall|l: int|
                0 <= l < 8 ==> #[trigger] selected@[l] == if l < lane && least@[l] == best {
                    ids@[l]
                } else {
                    u32::MAX
                },
        decreases 8 - lane,
    {
        if least[lane] == best {
            selected[lane] = ids[lane];
        }
        lane += 1;
    }
    selected
}

/// Finds the cheapest histogram, eight at a time and the rest one by one. Of equals the first is
/// taken.
pub fn cheapest_histogram(costs: &[u64], ceiling: u64) -> (cheapest: Option<usize>)
    requires
        costs@.len() <= 256,
    ensures
        match cheapest {
            Some(k) => is_cheapest(costs@, ceiling, k as int),
            None => none_below(costs@, ceiling),
        },
{
    let num_vectors: usize = costs.len() / 8;
    let vectorized_offset: usize = num_vectors * 8;
    let mut least: [u64; 8] = [ceiling; 8];
    let mut ids: [u32; 8] = [u32::MAX; 8];
    let mut row: usize = 0;
    assert forall|l: int| 0 <= l < 8 implies lane_knows(
        costs@,
        ceiling,
        0,
        l,
        #[trigger] least@[l],
        ids@[l],
    ) by {}
    while row < num_vectors
        invariant
            row <= num_vectors,
            num_vectors * 8 <= costs@.len() <= 256,
            forall|l: int|
                0 <= l < 8 ==> lane_knows(
                    costs@,
                    ceiling,
                    row as int,
                    l,
                    #[trigger] least@[l],
                    ids@[l],
                ),
        decreases num_vectors - row,
    {
        update_lanes(costs, row, &mut least, &mut ids, Ghost(ceiling));
        row += 1;
    }
    let mut min_cost: u64 = ceiling;
    let mut cheapest: Option<usize> = None;
    let best: u64 = min_lane_u64x8(least);
    let ghost head = costs@.take(vectorized_offset as int);
    if best < min_cost {
        let selected = ids_of_best(&least, &ids, best);
        let id: u32 = min_lane_u32x8(selected);
        proof {
            lemma_lanes_cheapest(
                costs@,
                ceiling,
                num_vectors as int,
                least@,
                ids@,
                selected@,
                best,
                id,
            );
        }
        min_cost = best;
        cheapest = Some(id as usize);
    } else {
        assert forall|j: int| 0 <= j < head.len() implies ceiling <= #[trigger] head[j] by {
            let l = j % 8;
            let w = j / 8;
            assert(j == 8 * w + l);
            assert(lane_knows(costs@, ceiling, num_vectors as int, l, least@[l], ids@[l]));
            assert(best <= least@[l]);
            assert(costs@[8 * w + l] == head[j]);
        }
    }
    let mut histogram_id: usize = vectorized_offset;
    while histogram_id < costs.len()
        invariant
            histogram_id <= costs@.len() <= 256,
            match cheapest {
                Some(k) => is_cheapest(costs@.take(histogram_id as int), ceiling, k as int)
                    && min_cost == costs@[k as int],
                None => none_below(costs@.take(histogram_id as int), ceiling) && min_cost
                    == ceiling,
            },
        decreases costs@.len() - histogram_id,
    {
        let ghost seen = costs@.take(histogram_id as int);
        let ghost more = costs@.take(histogram_id + 1);
        assert forall|j: int| 0 <= j < seen.len() implies #[trigger] seen[j] == more[j] by {}
        assert forall|j: int| 0 <= j < more.len() implies #[trigger] more[j] == if j
            < histogram_id {
            seen[j]
        } else {
            costs@[histogram_id as int]
        } by {}
        if costs[histogram_id] < min_cost {
            min_cost = costs[histogram_id];
            cheapest = Some(histogram_id);
        }
        histogram_id += 1;
    }
    assert(costs@.take(histogram_id as int) =~= costs@);
    cheapest
}

/// The lanes together know the first cheapest histogram of their rows.
proof fn lemma_lanes_cheapest(
    costs: Seq<u64>,
    ceiling: u64,
    rows: int,
    least: Seq<u64>,
    ids: Seq<u32>,
    selected: Seq<u32>,
    best: u64,
    id: u32,
)
    requires
        0 <= rows,
        8 * rows <= costs.len() <= 256,
        least.len() == 8,
        ids.len() == 8,
        selected.len() == 8,
        forall|l: int| 0 <= l < 8 ==> lane_knows(costs, ceiling, rows, l, #[trigger] least[l], ids[l]),
        forall|l: int| 0 <= l < 8 ==> best <= #[trigger] least[l],
        least.contains(best),
        best < ceiling,
        forall|l: int|
            0 <= l < 8 ==> #[trigger] selected[l] == if least[l] == best {
                ids[l]
            } else {
                u32::MAX
            },
        forall|l: int| 0 <= l < 8 ==> id <= #[trigger] selected[l],
        selected.contains(id),
    ensures
        is_cheapest(costs.take(8 * rows), ceiling, id as int),
        costs[id as int] == best,
{
    let head = costs.take(8 * rows);
    let first = least.index_of(best);
    assert(least[first] == best);
    assert(lane_knows(costs, ceiling, rows, first, least[first], ids[first]));
    assert(id <= selected[first]);
    let w0 = choose|w: int| 0 <= w < rows && ids[first] == #[trigger] (8 * w + first);
    assert(ids[first] < u32::MAX);
    let owner = selected.index_of(id);
    assert(selected[owner] == id);
    assert(least[owner] == best);
    assert(lane_knows(costs, ceiling, rows, owner, least[owner], ids[owner]));
    let w1 = choose|w: int| 0 <= w < rows && ids[owner] == #[trigger] (8 * w + owner);
    assert(head[id as int] == best);
    assert forall|j: int| 0 <= j < head.len() implies best <= #[trigger] head[j] && (j < id ==> best
        < head[j]) by {
        let l = j % 8;
        let w = j / 8;
        assert(j == 8 * w + l);
        assert(lane_knows(costs, ceiling, rows, l, least[l], ids[l]));
        assert(best <= least[l]);
        assert(least[l] <= costs[8 * w + l]);
        if j < id && head[j] == best {
            assert(id <= selected[l]);
            assert(best < costs[8 * w + l]);
        }
    }
}

/// Bit `k` of a byte.
pub open spec fn byte_bit(byte: u8, k: int) -> bool {
    (byte >> (k as u8)) & 1 == 1
}

/// One bit for each of eight costs that is at least `threshold`.
fn at_least_mask(costs: &[u64], threshold: u64) -> (mask: u8)
    requires
        costs@.len() == 8,
    ensures
        forall|k: int| 0 <= k < 8 ==> (#[trigger] byte_bit(mask, k) <==> costs@[k] >= threshold),
{
    let mut mask: u8 = 0;
    let mut lane: usize = 0;
    assert forall|k: int| 0 <= k < 8 implies !#[trigger] byte_bit(0u8, k) by {
        let j = k as u8;
        assert((0u8 >> j) & 1 == 0) by (bit_vector);
    }
    while lane < 8
        invariant
            lane <= 8,
            costs@.len() == 8,
            forall|k: int|
                0 <= k < 8 ==> (#[trigger] byte_bit(mask, k) <==> k < lane && costs@[k]
                    >= threshold),
        decreases 8 - lane,
    {
        if costs[lane] >= threshold {
            let ghost before = mask;
            let at: u8 = lane as u8;
            mask = mask | (1u8 << at);
            assert forall|k: int| 0 <= k < 8 implies (#[trigger] byte_bit(mask, k) <==> byte_bit(
                before,
                k,
            ) || k == at) by {
                let j = k as u8;
                assert(((before | (1u8 << at)) >> j) & 1 == 1 <==> ((before >> j) & 1 == 1 || j
                    == at)) by (bit_vector)
                    requires
                        at < 8,
                        j < 8,
                ;
            }
        }
        lane += 1;
    }
    mask
}

/// How many runs of equal ids there are.
pub open spec fn run_count(ids: Seq<u8>) -> nat
    decreases ids.len(),
{
    if ids.len() == 0 {
        0
    } else if ids.len() == 1 {
        1
    } else {
        run_count(ids.skip(1)) + if ids[0] == ids[1] {
            0nat
        } else {
            1
        }
    }
}

/// The id of symbol `i` on the cheapest way. The last symbol takes its cheapest histogram. One
/// before it stays with the histogram of the symbol behind it, unless a change away from that one
/// paid off here: `switches(i, h)` tells whether it did.
pub open spec fn traced_id(
    chosen: Seq<u8>,
    switches: spec_fn(int, u8) -> bool,
    i: int,
) -> u8
    decreases chosen.len() - i,
{
    if i >= chosen.len() - 1 {
        chosen[chosen.len() - 1]
    } else {
        let behind = traced_id(chosen, switches, i + 1);
        if switches(i, behind) {
            chosen[i]
        } else {
            behind
        }
    }
}

/// The ids of all symbols on the cheapest way.
pub open spec fn traced(chosen: Seq<u8>, switches: spec_fn(int, u8) -> bool) -> Seq<u8> {
    Seq::new(chosen.len(), |i: int| traced_id(chosen, switches, i))
}

/// A search for blocks, one symbol after the other. For each symbol [`BlockFinder::pick`] takes the
/// costs of ending up in each histogram, and [`BlockFinder::mark`] by how much they exceed the least.
#[derive(Debug)]
pub struct BlockFinder {
    length: usize,
    num_histograms: usize,
    bitmaplen: usize,
    marked: usize,
    block_id: Vec<u8>,
    switch_signal: Vec<u8>,
}

/// What is left to do to find the blocks of a stream.
#[derive(Debug)]
pub enum FoundBlocks {
    /// The block ids and how many blocks there are.
    Settled { block_ids: Vec<u8>, num_blocks: usize },
    /// The symbols are to be gone through.
    Search { finder: BlockFinder },
}

impl BlockFinder {
    /// How many symbols there are.
    pub closed spec fn spec_length(&self) -> int {
        self.length as int
    }

    /// How many histograms there are.
    pub closed spec fn spec_num_histograms(&self) -> int {
        self.num_histograms as int
    }

    /// How many costs are marked at a time: one for each histogram, rounded up to eights.
    pub closed spec fn spec_lanes(&self) -> int {
        8 * self.bitmaplen
    }

    /// How many symbols are done.
    pub closed spec fn spec_marked(&self) -> int {
        self.marked as int
    }

    /// The cheapest histograms of the symbols so far.
    pub closed spec fn chosen(&self) -> Seq<u8> {
        self.block_id@
    }

    /// There are at least two histograms, and the signals of every symbol that is done.
    pub closed spec fn wf(&self) -> bool {
        &&& 2 <= self.num_histograms <= 256
        &&& self.bitmaplen == (self.num_histograms + 7) / 8
        &&& self.length * self.bitmaplen <= usize::MAX
        &&& self.marked <= self.block_id@.len() <= self.marked + 1
        &&& self.block_id@.len() <= self.length
        &&& self.switch_signal@.len() == self.marked * self.bitmaplen
        &&& forall|i: int|
            0 <= i < self.block_id@.len() ==> #[trigger] self.block_id@[i] < self.num_histograms
    }

    /// Whether leaving histogram `h` behind symbol `i` pays off.
    pub closed spec fn switches(&self, i: int, h: u8) -> bool {
        byte_bit(self.switch_signal@[i * self.bitmaplen + h as int / 8], h as int % 8)
    }

    /// How many costs are marked at a time.
    pub fn lanes(&self) -> (lanes: usize)
        requires
            self.wf(),
        ensures
            lanes == self.spec_lanes(),
            self.spec_num_histograms() <= lanes < self.spec_num_histograms() + 8,
            lanes % 8 == 0,
    {
        8 * self.bitmaplen
    }

    /// Takes the keys of the costs of ending up in each histogram with the next symbol, and gives the
    /// cheapest histogram. Where no cost lies below `ceiling`, the first histogram stands in.
    pub fn pick(&mut self, costs: &[u64], ceiling: u64) -> (cheapest: Option<usize>)
        requires
            old(self).wf(),
            old(self).chosen().len() == old(self).spec_marked(),
            old(self).spec_marked() < old(self).spec_length(),
            costs@.len() == old(self).spec_num_histograms(),
        ensures
            final(self).wf(),
            final(self).spec_length() == old(self).spec_length(),
            final(self).spec_num_histograms() == old(self).spec_num_histograms(),
            final(self).spec_lanes() == old(self).spec_lanes(),
            final(self).spec_marked() == old(self).spec_marked(),
            forall|i: int, h: u8| #[trigger]
                final(self).switches(i, h) == old(self).switches(i, h),
            final(self).chosen() == old(self).chosen().push(
                match cheapest {
                    Some(k) => k as u8,
                    None => 0,
                },
            ),
            match cheapest {
                Some(k) => is_cheapest(costs@, ceiling, k as int),
                None => none_below(costs@, ceiling),
            },
    {
        let cheapest = cheapest_histogram(costs, ceiling);
        match cheapest {
            Some(k) => {
                self.block_id.push(k as u8);
            },
            None => {
                self.block_id.push(0);
            },
        }
        cheapest
    }

    /// Takes the keys of the amounts by which the costs, eight for each byte of signals, exceed the
    /// least one. A histogram that is `switch_cost` or more away is better left for the cheapest.
    pub fn mark(&mut self, excess: &[u64], switch_cost: u64)
        requires
            old(self).wf(),
            old(self).chosen().len() == old(self).spec_marked() + 1,
            excess@.len() == old(self).spec_lanes(),
        ensures
            final(self).wf(),
            final(self).spec_length() == old(self).spec_length(),
            final(self).spec_num_histograms() == old(self).spec_num_histograms(),
            final(self).spec_lanes() == old(self).spec_lanes(),
            final(self).spec_marked() == old(self).spec_marked() + 1,
            final(self).chosen() == old(self).chosen(),
            forall|i: int, h: u8|
                0 <= i < old(self).spec_marked() && h < old(self).spec_num_histograms()
                    ==> #[trigger] final(self).switches(i, h) == old(self).switches(i, h),
            forall|h: u8|
                h < old(self).spec_num_histograms() ==> (#[trigger] final(self).switches(
                    old(self).spec_marked(),
                    h,
                ) <==> excess@[h as int] >= switch_cost),
    {
        let ghost before = self.switch_signal@;
        let mut index: usize = 0;
        while index < self.bitmaplen
            invariant
                index <= self.bitmaplen,
                self.bitmaplen <= 32,
                self.bitmaplen == old(self).bitmaplen,
                self.num_histograms == old(self).num_histograms,
                self.length == old(self).length,
                self.marked == old(self).marked,
                self.block_id@ == old(self).block_id@,
                before == old(self).switch_signal@,
                excess@.len() == 8 * self.bitmaplen,
                self.switch_signal@.len() == before.len() + index,
                forall|j: int|
                    0 <= j < before.len() ==> #[trigger] self.switch_signal@[j] == before[j],
                forall|j: int, k: int|
                    0 <= j < index && 0 <= k < 8 ==> (#[trigger] byte_bit(
                        self.switch_signal@[before.len() + j],
                        k,
                    ) <==> excess@[8 * j + k] >= switch_cost),
            decreases self.bitmaplen - index,
        {
            let mask: u8 = at_least_mask(&excess[8 * index..8 * index + 8], switch_cost);
            self.switch_signal.push(mask);
            index += 1;
        }
        self.marked = self.marked + 1;
        proof {
            let n = self.bitmaplen as int;
            let m = old(self).marked as int;
            assert(before.len() == m * n);
            assert((m + 1) * n == m * n + n) by (nonlinear_arith);
            assert forall|i: int, h: u8|
                0 <= i < m && h < self.num_histograms implies #[trigger] self.switches(i, h) == old(
                self,
            ).switches(i, h) by {
                assert(0 <= i * n && i * n + n <= m * n) by (nonlinear_arith)
                    requires
                        0 <= i < m,
                        n >= 0,
                ;
                assert(h as int / 8 < n);
            }
            assert forall|h: u8| h < self.num_histograms implies (#[trigger] self.switches(m, h)
                <==> excess@[h as int] >= switch_cost) by {
                let j = h as int / 8;
                let k = h as int % 8;
                assert(j < n);
                assert(byte_bit(self.switch_signal@[before.len() + j], k) <==> excess@[8 * j + k]
                    >= switch_cost);
            }
        }
    }

    /// Goes back from the last symbol and settles the id of each. Gives the ids and how many blocks
    /// they make.
    pub fn trace(self) -> (found: (Vec<u8>, usize))
        requires
            self.wf(),
            self.spec_marked() == self.spec_length(),
            self.spec_length() > 0,
        ensures
            found.0@ == traced(self.chosen(), |i: int, h: u8| self.switches(i, h)),
            found.1 == run_count(found.0@),
            found.0@.len() == self.spec_length(),
            forall|i: int|
                0 <= i < found.0@.len() ==> #[trigger] found.0@[i] < self.spec_num_histograms(),
    {
        let ghost chosen = self.block_id@;
        let ghost switches = |i: int, h: u8| self.switches(i, h);
        let ghost goal = traced(chosen, switches);
        let length: usize = self.length;
        let mut block_id = self.block_id.clone();
        let mut cur_id: u8 = block_id[length - 1];
        let mut num_blocks: usize = 1;
        let mut i: usize = length - 1;
        proof {
            assert(goal.skip(length - 1).len() == 1);
            assert(block_id@ =~= chosen);
        }
        while i > 0
            invariant
                self.wf(),
                length == self.length,
                length == chosen.len(),
                chosen == self.block_id@,
                self.marked == self.length,
                switches == (|i: int, h: u8| self.switches(i, h)),
                goal == traced(chosen, switches),
                i < length,
                block_id@.len() == length,
                cur_id == goal[i as int],
                cur_id < self.num_histograms,
                forall|j: int|
                    0 <= j < length ==> #[trigger] block_id@[j] == if j < i {
                        chosen[j]
                    } else {
                        goal[j]
                    },
                forall|j: int| i <= j < length ==> #[trigger] goal[j] < self.num_histograms,
                num_blocks == run_count(goal.skip(i as int)),
                num_blocks <= length - i,
            decreases i,
        {
            let at: usize = i - 1;
            let previous_id: u8 = block_id[at];
            let ghost n = self.bitmaplen as int;
            proof {
                assert(0 <= at * n && at * n + n <= length * n) by (nonlinear_arith)
                    requires
                        0 <= at < length,
                        n >= 0,
                ;
                assert(cur_id >> 3 == cur_id / 8) by (bit_vector);
                assert(cur_id & 7 == cur_id % 8) by (bit_vector);
                assert(cur_id as int / 8 < n);
            }
            let byte: u8 = self.switch_signal[at * self.bitmaplen + (cur_id >> 3) as usize];
            let shift: u8 = cur_id & 7;
            let mask: u8 = 1u8 << shift;
            assert((byte & (1u8 << shift)) != 0 <==> (byte >> shift) & 1 == 1) by (bit_vector)
                requires
                    shift < 8,
            ;
            assert(switches(at as int, cur_id) == byte_bit(byte, shift as int));
            let ghost behind = cur_id;
            if byte & mask != 0 && cur_id != previous_id {
                cur_id = previous_id;
                num_blocks += 1;
            }
            block_id[at] = cur_id;
            proof {
                assert(goal[at as int] == cur_id);
                assert(goal.skip(at as int).skip(1) =~= goal.skip(i as int));
                assert(goal.skip(at as int)[0] == cur_id);
                assert(goal.skip(at as int)[1] == behind);
            }
            i = at;
        }
        proof {
            assert(goal.skip(0) =~= goal);
            assert(block_id@ =~= goal);
        }
        (block_id, num_blocks)
    }
}

/// Starts finding the blocks of `length` symbols among `num_histograms` histograms. With no histogram
/// the ids stay as they are, with one there is a single block.
pub fn FindBlocks(length: usize, num_histograms: usize, block_ids: Vec<u8>) -> (found: FoundBlocks)
    requires
        length <= block_ids@.len(),
        num_histograms <= 256,
        length * ((num_histograms + 7) / 8) <= usize::MAX,
    ensures
        match found {
            FoundBlocks::Settled { block_ids: ids, num_blocks } => {
                &&& num_histograms <= 1
                &&& num_blocks == num_histograms
                &&& ids@.len() == block_ids@.len()
                &&& forall|i: int|
                    0 <= i < ids@.len() ==> #[trigger] ids@[i] == if num_histograms == 1 && i
                        < length {
                        0
                    } else {
                        block_ids@[i]
                    }
            },
            FoundBlocks::Search { finder } => {
                &&& num_histograms >= 2
                &&& finder.wf()
                &&& finder.spec_length() == length
                &&& finder.spec_num_histograms() == num_histograms
                &&& finder.spec_marked() == 0
                &&& finder.chosen().len() == 0
            },
        },
{
    if num_histograms == 0 {
        return FoundBlocks::Settled { block_ids, num_blocks: 0 };
    }
    if num_histograms <= 1 {
        let mut ids = block_ids;
        let mut i: usize = 0;
        while i < length
            invariant
                i <= length <= block_ids@.len(),
                ids@.len() == block_ids@.len(),
                forall|j: int|
                    0 <= j < ids@.len() ==> #[trigger] ids@[j] == if j < i {
                        0
                    } else {
                        block_ids@[j]
                    },
            decreases length - i,
        {
            ids[i] = 0;
            i += 1;
        }
        return FoundBlocks::Settled { block_ids: ids, num_blocks: 1 };
    }
    let bitmaplen: usize = (num_histograms + 7) / 8;
    FoundBlocks::Search {
        finder: BlockFinder {
            length,
            num_histograms,
            bitmaplen,
            marked: 0,
            block_id: Vec::new(),
            switch_signal: Vec::new(),
        },
    }
}

} // verus!
