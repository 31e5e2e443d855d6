//! The blocks of a stream: how long each is and of which type.
use vstd::prelude::*;

verus! {

/// A split of a stream into blocks. Only the first `num_blocks` entries of `types` and `lengths`
/// mean anything; the rest is room to grow.
#[derive(Debug)]
pub struct BlockSplit {
    pub num_types: usize,
    pub num_blocks: usize,
    pub types: Vec<u8>,
    pub lengths: Vec<u32>,
}

/// How much room an array of `size` entries gets so that `needed` fit: none more if they do, and
/// else the first double of its size that does.
pub open spec fn grown_size(size: nat, needed: nat) -> nat
    decreases 2 * needed - size,
{
    if size >= needed {
        size
    } else if size == 0 {
        needed
    } else {
        grown_size(2 * size, needed)
    }
}

/// `items` with room for `needed` entries, new entries being `blank`.
pub open spec fn grown<T>(items: Seq<T>, needed: nat, blank: T) -> Seq<T> {
    Seq::new(
        grown_size(items.len(), needed),
        |i: int|
            if i < items.len() {
                items[i]
            } else {
                blank
            },
    )
}

/// Enough room is enough, and less than twice what is needed unless there was more before.
pub proof fn lemma_grown_size(size: nat, needed: nat)
    ensures
        grown_size(size, needed) >= needed,
        grown_size(size, needed) >= size,
        grown_size(size, needed) <= size || grown_size(size, needed) < 2 * needed || grown_size(
            size,
            needed,
        ) == needed,
    decreases 2 * needed - size,
{
    if 0 < size < needed {
        lemma_grown_size(2 * size, needed);
    }
}

/// Makes room for `needed` entries.
fn grow<T: Copy>(items: &mut Vec<T>, needed: usize, blank: T)
    requires
        needed <= usize::MAX / 2,
    ensures
        final(items)@ == grown(old(items)@, needed as nat, blank),
{
    if items.len() < needed {
        let mut new_size: usize = if items.len() == 0 {
            needed
        } else {
            items.len()
        };
        while new_size < needed
            invariant
                0 < new_size,
                0 < needed <= usize::MAX / 2,
                grown_size(new_size as nat, needed as nat) == grown_size(
                    items@.len(),
                    needed as nat,
                ),
            decreases 2 * needed - new_size,
        {
            new_size = new_size * 2;
        }
        while items.len() < new_size
            invariant
                items@.len() >= old(items)@.len(),
                items@.len() <= new_size || items@.len() == old(items)@.len(),
                forall|i: int|
                    0 <= i < items@.len() ==> #[trigger] items@[i] == if i < old(items)@.len() {
                        old(items)@[i]
                    } else {
                        blank
                    },
            decreases new_size - items@.len(),
        {
            items.push(blank);
        }
    }
    assert(items@ =~= grown(old(items)@, needed as nat, blank));
}

impl BlockSplit {
    /// A split with no blocks and no room.
    pub fn new() -> (split: BlockSplit)
        ensures
            split.num_types == 0,
            split.num_blocks == 0,
            split.types@ == Seq::<u8>::empty(),
            split.lengths@ == Seq::<u32>::empty(),
    {
        BlockSplit { num_types: 0, num_blocks: 0, types: Vec::new(), lengths: Vec::new() }
    }

    /// The blocks lie within the arrays.
    pub open spec fn wf(&self) -> bool {
        &&& self.num_blocks <= self.types@.len()
        &&& self.num_blocks <= self.lengths@.len()
    }

    /// The types of the blocks.
    pub open spec fn block_types(&self) -> Seq<u8> {
        self.types@.take(self.num_blocks as int)
    }

    /// The lengths of the blocks.
    pub open spec fn block_lengths(&self) -> Seq<u32> {
        self.lengths@.take(self.num_blocks as int)
    }

    /// The room behind the blocks is as it was in `before`, and zero where it was made since.
    pub open spec fn keeps_room(&self, before: &BlockSplit) -> bool {
        &&& forall|i: int|
            self.num_blocks <= i < self.types@.len() ==> #[trigger] self.types@[i] == if i
                < before.types@.len() {
                before.types@[i]
            } else {
                0
            }
        &&& forall|i: int|
            self.num_blocks <= i < self.lengths@.len() ==> #[trigger] self.lengths@[i] == if i
                < before.lengths@.len() {
                before.lengths@[i]
            } else {
                0
            }
    }

    /// Makes room for `needed` blocks.
    pub fn reserve(&mut self, needed: usize)
        requires
            needed <= usize::MAX / 2,
        ensures
            final(self).num_types == old(self).num_types,
            final(self).num_blocks == old(self).num_blocks,
            final(self).types@ == grown(old(self).types@, needed as nat, 0),
            final(self).lengths@ == grown(old(self).lengths@, needed as nat, 0),
            final(self).types@.len() >= needed,
            final(self).lengths@.len() >= needed,
            old(self).wf() ==> final(self).wf() && final(self).block_types() == old(
                self,
            ).block_types() && final(self).block_lengths() == old(self).block_lengths(),
    {
        grow(&mut self.types, needed, 0);
        grow(&mut self.lengths, needed, 0);
        proof {
            lemma_grown_size(old(self).types@.len(), needed as nat);
            lemma_grown_size(old(self).lengths@.len(), needed as nat);
            if old(self).wf() {
                assert(self.block_types() =~= old(self).block_types());
                assert(self.block_lengths() =~= old(self).block_lengths());
            }
        }
    }
}

} // verus!
