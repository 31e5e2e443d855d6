//! A match finder over a hash table whose entries carry one-byte tags.
//!
//! Every bucket of the table is a ring of `block_size` positions. Beside each position the table
//! keeps a byte of its hash, its tag, so that a search loads only the positions whose tags fit. The
//! counter of a bucket runs down from `u16::MAX`: the slot that it names is written next, and the
//! slots above it hold what was stored before, newest first.
use super::search::{SearchContext, SearchState};
use super::{adv_prepare_distance_cache, BrotliHasherParams, H9Opts, HasherSearchResult, HowPrepared, Struct1};
use super::{kHashMul32, kHashMul64};
use crate::static_dict::{BROTLI_UNALIGNED_LOAD32, BROTLI_UNALIGNED_LOAD64};
use crate::vectorization::{bit, eq_mask_u8x16, eq_mask_u8x32};
use vstd::arithmetic::power2::pow2;
use vstd::prelude::*;
use vstd::std_specs::cmp::{PartialEqSpec, PartialEqSpecImpl};

verus! {

/// How many bits of a hash are its tag.
pub const TAG_BITS: u32 = 8;

/// How a tagged table hashes and how large it is.
pub trait TaggedHashSpecialization: Copy + PartialEq {
    /// The hash of the bytes at the start of `data`.
    spec fn spec_hash(&self, data: Seq<u8>) -> int;

    /// How many bytes a hash reads.
    spec fn spec_hash_type_length(&self) -> nat;

    /// The binary logarithm of the number of slots in a bucket.
    spec fn spec_block_bits(&self) -> u32;

    /// The binary logarithm of the number of buckets.
    spec fn spec_bucket_bits(&self) -> u32;

    /// Whether a candidate is dropped by its first four bytes before its length is measured.
    spec fn spec_compare_from_four(&self) -> bool;

    /// The table fits in memory and in the width of a hash.
    spec fn wf(&self) -> bool;

    /// A hash names a bucket and a tag.
    proof fn lemma_hash_in_range(&self, data: Seq<u8>)
        requires
            self.wf(),
            data.len() >= self.spec_hash_type_length(),
        ensures
            0 <= self.spec_hash(data) < 256 * pow2(self.spec_bucket_bits() as nat),
            self.spec_bucket_bits() + self.spec_block_bits() < usize::BITS,
    ;

    /// Whether the table fits.
    fn fits(&self) -> (fits: bool)
        ensures
            fits == self.wf(),
    ;

    fn hash(&self, data: &[u8]) -> (hash: usize)
        requires
            self.wf(),
            data@.len() >= self.spec_hash_type_length(),
        ensures
            hash == self.spec_hash(data@),
    ;

    fn hash_type_length(&self) -> (length: usize)
        ensures
            length == self.spec_hash_type_length(),
            length > 0,
    ;

    fn block_bits(&self) -> (bits: u32)
        ensures
            bits == self.spec_block_bits(),
    ;

    fn bucket_bits(&self) -> (bits: u32)
        ensures
            bits == self.spec_bucket_bits(),
    ;

    fn compare_from_four(&self) -> (from_four: bool)
        ensures
            from_four == self.spec_compare_from_four(),
    ;

    /// The number of slots in a bucket.
    fn block_size(&self) -> (size: usize)
        requires
            self.spec_block_bits() < usize::BITS,
        ensures
            size == pow2(self.spec_block_bits() as nat),
    {
        let bits: u32 = self.block_bits();
        shl_one(bits)
    }

    /// The mask that takes a counter to a slot.
    fn block_mask(&self) -> (mask: usize)
        requires
            self.spec_block_bits() < usize::BITS,
        ensures
            mask == pow2(self.spec_block_bits() as nat) - 1,
    {
        proof {
            vstd::arithmetic::power2::lemma_pow2_pos(self.spec_block_bits() as nat);
        }
        self.block_size() - 1
    }

    /// The number of buckets.
    fn bucket_size(&self) -> (size: usize)
        requires
            self.spec_bucket_bits() < usize::BITS,
        ensures
            size == pow2(self.spec_bucket_bits() as nat),
    {
        let bits: u32 = self.bucket_bits();
        shl_one(bits)
    }
}

/// A power of two.
fn shl_one(bits: u32) -> (size: usize)
    requires
        bits < usize::BITS,
    ensures
        size == pow2(bits as nat),
{
    proof {
        vstd::bits::lemma_usize_pow2_no_overflow(bits as nat);
        vstd::bits::lemma_usize_shl_is_mul(1, bits as usize);
    }
    1usize << bits
}

/// Hashes four bytes.
#[derive(Clone, Copy, Eq, Debug)]
pub struct H58Sub {
    pub block_bits: u32,
    pub bucket_bits: u32,
}

impl PartialEq for H58Sub {
    fn eq(&self, other: &Self) -> (equal: bool) {
        self.block_bits == other.block_bits && self.bucket_bits == other.bucket_bits
    }
}

impl PartialEqSpecImpl for H58Sub {
    open spec fn obeys_eq_spec() -> bool {
        true
    }

    open spec fn eq_spec(&self, other: &Self) -> bool {
        *self == *other
    }
}

impl TaggedHashSpecialization for H58Sub {
    open spec fn spec_hash(&self, data: Seq<u8>) -> int {
        ((crate::static_dict::load32(data) * kHashMul32) % 0x1_0000_0000) / (pow2(
            (24 - self.bucket_bits) as nat,
        ) as int)
    }

    open spec fn spec_hash_type_length(&self) -> nat {
        4
    }

    open spec fn spec_block_bits(&self) -> u32 {
        self.block_bits
    }

    open spec fn spec_bucket_bits(&self) -> u32 {
        self.bucket_bits
    }

    open spec fn spec_compare_from_four(&self) -> bool {
        false
    }

    open spec fn wf(&self) -> bool {
        &&& self.bucket_bits <= 24
        &&& self.bucket_bits + self.block_bits < usize::BITS
    }

    proof fn lemma_hash_in_range(&self, data: Seq<u8>) {
        let product = (crate::static_dict::load32(data) * kHashMul32) % 0x1_0000_0000;
        let scale = pow2((24 - self.bucket_bits) as nat) as int;
        let buckets = pow2(self.bucket_bits as nat) as int;
        vstd::arithmetic::power2::lemma_pow2_pos((24 - self.bucket_bits) as nat);
        vstd::arithmetic::power2::lemma_pow2_adds(
            (24 - self.bucket_bits) as nat,
            self.bucket_bits as nat,
        );
        vstd::arithmetic::power2::lemma2_to64();
        assert(scale * (256 * buckets) == 0x1_0000_0000) by (nonlinear_arith)
            requires
                scale * buckets == 0x100_0000,
        ;
        assert(0 <= product / scale < 256 * buckets) by (nonlinear_arith)
            requires
                0 <= product < scale * (256 * buckets),
                scale > 0,
        ;
    }

    fn fits(&self) -> (fits: bool) {
        self.bucket_bits <= 24 && self.block_bits < usize::BITS - self.bucket_bits
    }

    fn hash(&self, data: &[u8]) -> (hash: usize) {
        let shift: u32 = 32 - self.bucket_bits - TAG_BITS;
        let product: u32 = BROTLI_UNALIGNED_LOAD32(data).wrapping_mul(kHashMul32);
        proof {
            vstd::bits::lemma_u32_shr_is_div(product, shift);
        }
        (product >> shift) as usize
    }

    fn hash_type_length(&self) -> (length: usize) {
        4
    }

    fn block_bits(&self) -> (bits: u32) {
        self.block_bits
    }

    fn bucket_bits(&self) -> (bits: u32) {
        self.bucket_bits
    }

    fn compare_from_four(&self) -> (from_four: bool) {
        false
    }
}

impl H58Sub {
    /// Positions that agree in four bytes have the same bucket and the same tag.
    pub proof fn lemma_hash_of_four(&self, a: Seq<u8>, b: Seq<u8>)
        requires
            a.len() >= 4,
            b.len() >= 4,
            forall|i: int| 0 <= i < 4 ==> #[trigger] a[i] == b[i],
        ensures
            self.spec_hash(a) == self.spec_hash(b),
    {
        assert(a[0] == b[0] && a[1] == b[1] && a[2] == b[2] && a[3] == b[3]);
    }
}

/// Hashes five bytes out of eight, into a table of fixed width.
#[derive(Clone, Copy, Eq, Debug)]
pub struct H68Sub {
    pub block_bits: u32,
}

impl PartialEq for H68Sub {
    fn eq(&self, other: &Self) -> (equal: bool) {
        self.block_bits == other.block_bits
    }
}

impl PartialEqSpecImpl for H68Sub {
    open spec fn obeys_eq_spec() -> bool {
        true
    }

    open spec fn eq_spec(&self, other: &Self) -> bool {
        *self == *other
    }
}

impl TaggedHashSpecialization for H68Sub {
    open spec fn spec_hash(&self, data: Seq<u8>) -> int {
        ((crate::static_dict::load64(data) * ((kHashMul64 * 0x100_0000)
            % 0x1_0000_0000_0000_0000)) % 0x1_0000_0000_0000_0000) / 0x200_0000_0000
    }

    open spec fn spec_hash_type_length(&self) -> nat {
        8
    }

    open spec fn spec_block_bits(&self) -> u32 {
        self.block_bits
    }

    open spec fn spec_bucket_bits(&self) -> u32 {
        15
    }

    open spec fn spec_compare_from_four(&self) -> bool {
        true
    }

    open spec fn wf(&self) -> bool {
        15 + self.block_bits < usize::BITS
    }

    proof fn lemma_hash_in_range(&self, data: Seq<u8>) {
        vstd::arithmetic::power2::lemma2_to64();
    }

    fn fits(&self) -> (fits: bool) {
        self.block_bits < usize::BITS - 15
    }

    fn hash(&self, data: &[u8]) -> (hash: usize) {
        let hash_mul: u64 = kHashMul64.wrapping_shl(64 - 5 * 8);
        let product: u64 = BROTLI_UNALIGNED_LOAD64(data).wrapping_mul(hash_mul);
        proof {
            assert(0x1e35_a7bd_1e35_a7bdu64 << 24u64 == 0xbd1e_35a7_bd00_0000u64) by (bit_vector);
            vstd::bits::lemma_u64_shr_is_div(product, 41);
            vstd::arithmetic::power2::lemma2_to64();
            vstd::arithmetic::power2::lemma2_to64_rest();
        }
        (product >> 41) as usize
    }

    fn hash_type_length(&self) -> (length: usize) {
        8
    }

    fn block_bits(&self) -> (bits: u32) {
        self.block_bits
    }

    fn bucket_bits(&self) -> (bits: u32) {
        15
    }

    fn compare_from_four(&self) -> (from_four: bool) {
        true
    }
}

impl H68Sub {
    /// Positions that agree in five bytes have the same bucket and the same tag, whatever follows.
    pub proof fn lemma_hash_of_five(&self, a: Seq<u8>, b: Seq<u8>)
        requires
            a.len() >= 8,
            b.len() >= 8,
            forall|i: int| 0 <= i < 5 ==> #[trigger] a[i] == b[i],
        ensures
            self.spec_hash(a) == self.spec_hash(b),
    {
        assert(a[0] == b[0] && a[1] == b[1] && a[2] == b[2] && a[3] == b[3] && a[4] == b[4]);
        lemma_five_bytes_count(a);
        lemma_five_bytes_count(b);
    }
}

/// The last three of eight bytes drop out of a product with the multiplier of five-byte hashes.
proof fn lemma_five_bytes_count(data: Seq<u8>)
    requires
        data.len() >= 8,
    ensures
        (crate::static_dict::load64(data) * ((kHashMul64 * 0x100_0000) % 0x1_0000_0000_0000_0000))
            % 0x1_0000_0000_0000_0000 == ((crate::static_dict::load32(data) + 0x1_0000_0000
            * data[4]) * ((kHashMul64 * 0x100_0000) % 0x1_0000_0000_0000_0000))
            % 0x1_0000_0000_0000_0000,
{
    let multiplier = (kHashMul64 * 0x100_0000) % 0x1_0000_0000_0000_0000;
    let reduced: int = 0xbd_1e35_a7bd;
    let low = crate::static_dict::load32(data) + 0x1_0000_0000 * data[4];
    let high = data[5] + 0x100 * data[6] + 0x1_0000 * data[7];
    assert(multiplier == reduced * 0x100_0000);
    assert(crate::static_dict::load64(data) == low + 0x100_0000_0000 * high);
    assert((low + 0x100_0000_0000 * high) * multiplier == (high * reduced) * 0x1_0000_0000_0000_0000
        + low * multiplier) by (nonlinear_arith)
        requires
            multiplier == reduced * 0x100_0000,
    ;
    vstd::arithmetic::div_mod::lemma_mod_multiples_vanish(
        high * reduced,
        low * multiplier,
        0x1_0000_0000_0000_0000,
    );
    assert(0x1_0000_0000_0000_0000 * (high * reduced) == (high * reduced)
        * 0x1_0000_0000_0000_0000);
}

/// What a tagged table holds: for each bucket its counter, and for each slot a tag and a position.
#[verifier::ext_equal]
pub struct TableView {
    pub num: Seq<u16>,
    pub tags: Seq<u8>,
    pub buckets: Seq<u32>,
}

impl TableView {
    /// Puts position `ix` into the slot that the counter of bucket `key` names, and moves the counter
    /// on. A bucket has `block_size` slots.
    pub open spec fn put(self, key: int, tag: u8, ix: usize, block_size: int) -> TableView {
        let slot = key * block_size + self.num[key] as int % block_size;
        TableView {
            num: self.num.update(key, self.num[key].wrapping_sub(1)),
            tags: self.tags.update(slot, tag),
            buckets: self.buckets.update(slot, ix as u32),
        }
    }

    /// Stores the position `ix` of a ring buffer under its hash.
    pub open spec fn store<S: TaggedHashSpecialization>(
        self,
        specialization: S,
        data: Seq<u8>,
        mask: usize,
        ix: usize,
    ) -> TableView {
        let hash = specialization.spec_hash(data.skip((ix & mask) as int));
        self.put(
            hash / 256,
            (hash % 256) as u8,
            ix,
            pow2(specialization.spec_block_bits() as nat) as int,
        )
    }

    /// Stores the positions from `start` up to `end`, one after the other.
    pub open spec fn store_range<S: TaggedHashSpecialization>(
        self,
        specialization: S,
        data: Seq<u8>,
        mask: usize,
        start: int,
        end: int,
    ) -> TableView
        decreases end - start,
    {
        if start >= end {
            self
        } else {
            self.store_range(specialization, data, mask, start, end - 1).store(
                specialization,
                data,
                mask,
                (end - 1) as usize,
            )
        }
    }

    /// How many positions went into a bucket since its counter last stood at its start.
    pub open spec fn stored(self, key: int) -> int {
        u16::MAX - self.num[key]
    }

    /// How many positions a search of bucket `key` can see.
    pub open spec fn visible(self, key: int, block_size: int) -> int {
        if self.stored(key) < block_size {
            self.stored(key)
        } else {
            block_size
        }
    }

    /// The slot of the `k`-th newest entry of bucket `key`.
    pub open spec fn slot(self, key: int, k: int, block_size: int) -> int {
        key * block_size + (self.num[key] + 1 + k) % block_size
    }

    /// What a search of bucket `key` can see, newest first: positions with their tags.
    pub open spec fn entries(self, key: int, block_size: int) -> Seq<(u32, u8)> {
        Seq::new(
            self.visible(key, block_size) as nat,
            |k: int|
                (
                    self.buckets[self.slot(key, k, block_size)],
                    self.tags[self.slot(key, k, block_size)],
                ),
        )
    }

    /// There is a counter for each bucket, and `block_size` slots for each counter.
    pub open spec fn shaped(self, block_size: int) -> bool {
        &&& block_size > 0
        &&& self.tags.len() == self.num.len() * block_size
        &&& self.buckets.len() == self.num.len() * block_size
    }

    /// A search sees nothing in a bucket whose counter stands at its start.
    pub proof fn lemma_fresh_bucket(self, key: int, block_size: int)
        requires
            self.shaped(block_size),
            0 <= key < self.num.len(),
            self.num[key] == u16::MAX,
        ensures
            self.entries(key, block_size) == Seq::<(u32, u8)>::empty(),
    {
        assert(self.entries(key, block_size) =~= Seq::empty());
    }

    /// A position put into a bucket comes first there, in front of what the bucket showed before,
    /// of which the oldest leaves once the bucket is full. A counter that has run down to zero starts
    /// anew, and the bucket shows nothing.
    pub proof fn lemma_put_comes_first(self, key: int, tag: u8, ix: usize, block_size: int)
        requires
            self.shaped(block_size),
            0 <= key < self.num.len(),
        ensures
            self.put(key, tag, ix, block_size).shaped(block_size),
            self.put(key, tag, ix, block_size).entries(key, block_size) == if self.num[key] == 0 {
                Seq::<(u32, u8)>::empty()
            } else {
                let all = seq![(ix as u32, tag)] + self.entries(key, block_size);
                if all.len() > block_size {
                    all.drop_last()
                } else {
                    all
                }
            },
    {
        let after = self.put(key, tag, ix, block_size);
        let written = key * block_size + self.num[key] as int % block_size;
        lemma_slot_in_bucket(key, self.num[key] as int, block_size, self.num.len() as int);
        if self.num[key] == 0 {
            assert(after.entries(key, block_size) =~= Seq::empty());
        } else {
            let all = seq![(ix as u32, tag)] + self.entries(key, block_size);
            let kept = if all.len() > block_size {
                all.drop_last()
            } else {
                all
            };
            assert(after.entries(key, block_size).len() == kept.len());
            assert forall|k: int| 0 <= k < kept.len() implies after.entries(key, block_size)[k]
                == kept[k] by {
                let counter = self.num[key] + k;
                lemma_slot_in_bucket(key, counter, block_size, self.num.len() as int);
                assert(after.slot(key, k, block_size) == key * block_size + counter % block_size);
                if k > 0 {
                    assert(after.slot(key, k, block_size) == self.slot(key, k - 1, block_size));
                    lemma_ring_distinct(self.num[key] as int, k, block_size);
                }
            }
            assert(after.entries(key, block_size) =~= kept);
        }
    }

    /// Putting a position into one bucket does not show in another.
    pub proof fn lemma_put_elsewhere(
        self,
        key: int,
        tag: u8,
        ix: usize,
        block_size: int,
        other: int,
    )
        requires
            self.shaped(block_size),
            0 <= key < self.num.len(),
            0 <= other < self.num.len(),
            other != key,
        ensures
            self.put(key, tag, ix, block_size).entries(other, block_size) == self.entries(
                other,
                block_size,
            ),
    {
        let after = self.put(key, tag, ix, block_size);
        lemma_slot_in_bucket(key, self.num[key] as int, block_size, self.num.len() as int);
        assert forall|k: int| 0 <= k < self.entries(other, block_size).len() implies after.entries(
            other,
            block_size,
        )[k] == self.entries(other, block_size)[k] by {
            lemma_slot_in_bucket(
                other,
                self.num[other] + 1 + k,
                block_size,
                self.num.len() as int,
            );
            assert(after.slot(other, k, block_size) == self.slot(other, k, block_size));
            assert(other < key ==> (other + 1) * block_size <= key * block_size)
                by (nonlinear_arith)
                requires
                    block_size > 0,
            ;
            assert(key < other ==> (key + 1) * block_size <= other * block_size)
                by (nonlinear_arith)
                requires
                    block_size > 0,
            ;
        }
        assert(after.entries(other, block_size) =~= self.entries(other, block_size));
    }

    /// What is stored is seen: a search for bytes with the same hash finds the position that was stored
    /// last first, under its tag. Only a counter that runs down to zero hides it.
    pub proof fn lemma_stored_is_seen<S: TaggedHashSpecialization>(
        self,
        specialization: S,
        data: Seq<u8>,
        mask: usize,
        ix: usize,
        bytes: Seq<u8>,
    )
        requires
            self.shaped(pow2(specialization.spec_block_bits() as nat) as int),
            specialization.spec_hash(bytes) == specialization.spec_hash(
                data.skip((ix & mask) as int),
            ),
            0 <= specialization.spec_hash(bytes) / 256 < self.num.len(),
            self.num[specialization.spec_hash(bytes) / 256] != 0,
        ensures
            ({
                let hash = specialization.spec_hash(bytes);
                let seen = self.store(specialization, data, mask, ix).entries(
                    hash / 256,
                    pow2(specialization.spec_block_bits() as nat) as int,
                );
                seen.len() > 0 && seen[0] == (ix as u32, (hash % 256) as u8)
            }),
    {
        let hash = specialization.spec_hash(bytes);
        let block_size = pow2(specialization.spec_block_bits() as nat) as int;
        self.lemma_put_comes_first(hash / 256, (hash % 256) as u8, ix, block_size);
    }

    /// Storing a range of positions is storing its first part and then the rest.
    pub proof fn lemma_store_range_splits<S: TaggedHashSpecialization>(
        self,
        specialization: S,
        data: Seq<u8>,
        mask: usize,
        start: int,
        middle: int,
        end: int,
    )
        requires
            start <= middle <= end,
        ensures
            self.store_range(specialization, data, mask, start, end) == self.store_range(
                specialization,
                data,
                mask,
                start,
                middle,
            ).store_range(specialization, data, mask, middle, end),
        decreases end - middle,
    {
        if middle < end {
            self.lemma_store_range_splits(specialization, data, mask, start, middle, end - 1);
        }
    }
}

/// A counter taken to a slot stays within its bucket.
proof fn lemma_slot_in_bucket(key: int, counter: int, block_size: int, buckets: int)
    requires
        0 <= key < buckets,
        block_size > 0,
    ensures
        key * block_size <= key * block_size + counter % block_size < (key + 1) * block_size
            <= buckets * block_size,
        0 <= key * block_size,
{
    vstd::arithmetic::div_mod::lemma_mod_bound(counter, block_size);
    assert((key + 1) * block_size == key * block_size + block_size && (key + 1) * block_size
        <= buckets * block_size && 0 <= key * block_size) by (nonlinear_arith)
        requires
            0 <= key < buckets,
            block_size > 0,
    ;
}

/// Two counters less than a bucket apart name different slots.
proof fn lemma_ring_distinct(counter: int, k: int, block_size: int)
    requires
        0 < k < block_size,
    ensures
        (counter + k) % block_size != counter % block_size,
{
    if (counter + k) % block_size == counter % block_size {
        vstd::arithmetic::div_mod::lemma_fundamental_div_mod(counter, block_size);
        vstd::arithmetic::div_mod::lemma_fundamental_div_mod(counter + k, block_size);
        let turns = (counter + k) / block_size - counter / block_size;
        assert(k == block_size * turns) by (nonlinear_arith)
            requires
                k == block_size * ((counter + k) / block_size) - block_size * (counter
                    / block_size),
                turns == (counter + k) / block_size - counter / block_size,
        ;
        assert(!(0 < block_size * turns < block_size)) by (nonlinear_arith)
            requires
                block_size > 0,
        ;
    }
}

/// Nothing at or above bit `n` means that shifting those bits down leaves nothing.
proof fn lemma_no_high_bits(mask: u64, n: u64)
    requires
        n < 64,
        forall|i: int| n <= i < 64 ==> !#[trigger] bit(mask, i),
    ensures
        mask >> n == 0,
{
    let high = mask >> n;
    if high != 0 {
        vstd::std_specs::bits::axiom_u64_trailing_zeros(high);
        let t = vstd::std_specs::bits::u64_trailing_zeros(high) as u64;
        assert(n + t < 64 && (mask >> ((n + t) as u64)) & 1 == 1) by (bit_vector)
            requires
                high == mask >> n,
                (high >> t) & 1 == 1,
                t < 64,
                n < 64,
        ;
        assert(bit(mask, (n + t) as int));
    }
}

/// Turning an `n`-bit ring of bits down by `head` moves bit `head + k` to bit `k`.
proof fn lemma_rotate(mask: u64, n: u64, head: u64, rotated: u64, k: u64)
    requires
        head < n < 64,
        mask >> n == 0,
        rotated == ((mask >> head) | (mask << ((n - head) as u64))) & (((1u64 << n) - 1) as u64),
        k < 64,
    ensures
        bit(rotated, k as int) <==> (k < n && bit(mask, (head + k) as int % n as int)),
{
    let r = rotated;
    if k >= n {
        assert((r >> k) & 1 == 0) by (bit_vector)
            requires
                head < n < 64,
                r == ((mask >> head) | (mask << ((n - head) as u64))) & (((1u64 << n) - 1) as u64),
                n <= k < 64,
        ;
    } else if head + k < n {
        assert((r >> k) & 1 == (mask >> ((head + k) as u64)) & 1) by (bit_vector)
            requires
                head < n < 64,
                mask >> n == 0,
                r == ((mask >> head) | (mask << ((n - head) as u64))) & (((1u64 << n) - 1) as u64),
                head + k < n,
        ;
        vstd::arithmetic::div_mod::lemma_small_mod((head + k) as nat, n as nat);
    } else {
        assert((r >> k) & 1 == (mask >> ((head + k - n) as u64)) & 1) by (bit_vector)
            requires
                head < n < 64,
                mask >> n == 0,
                r == ((mask >> head) | (mask << ((n - head) as u64))) & (((1u64 << n) - 1) as u64),
                k < n,
                n <= head + k,
        ;
        assert((head + k) as int % n as int == head + k - n) by {
            vstd::arithmetic::div_mod::lemma_fundamental_div_mod_converse(
                (head + k) as int,
                n as int,
                1,
                head + k - n,
            );
        }
    }
}

/// Which slots of a bucket carry `tag`: bit `k` of the result stands for the slot `k` places behind
/// `head`, so that the newest candidate comes at bit zero.
pub fn matching_tag_mask(tag: u8, tags: &[u8], head: usize) -> (matches: u64)
    requires
        0 < tags@.len() < 64,
        head < tags@.len(),
    ensures
        forall|k: int|
            0 <= k < 64 ==> (#[trigger] bit(matches, k) <==> (k < tags@.len() && tags@[(head + k)
                % (tags@.len() as int)] == tag)),
{
    let n: usize = tags.len();
    let mask: u64 = if n == 16 {
        eq_mask_u8x16(tags, tag)
    } else if n == 32 {
        eq_mask_u8x32(tags, tag)
    } else {
        let mut mask: u64 = 0;
        let mut index: usize = 0;
        proof {
            assert forall|i: int| 0 <= i < 64 implies !#[trigger] bit(0u64, i) by {
                let j = i as u64;
                assert((0u64 >> j) & 1 == 0) by (bit_vector);
            }
        }
        while index < n
            invariant
                n == tags@.len(),
                n < 64,
                index <= n,
                forall|i: int|
                    0 <= i < 64 ==> (#[trigger] bit(mask, i) <==> (i < index && tags@[i] == tag)),
            decreases n - index,
        {
            if tags[index] == tag {
                let ghost before = mask;
                let at: u64 = index as u64;
                mask = mask | (1u64 << at);
                proof {
                    assert forall|i: int| 0 <= i < 64 implies (#[trigger] bit(mask, i) <==> bit(
                        before,
                        i,
                    ) || i == at) by {
                        let j = i as u64;
                        assert((((before | (1u64 << at)) >> j) & 1 == 1) <==> ((before >> j) & 1
                            == 1 || j == at)) by (bit_vector)
                            requires
                                at < 64,
                                j < 64,
                        ;
                    }
                }
            }
            index += 1;
        }
        mask
    };
    let width: u64 = n as u64;
    let turn: u64 = head as u64;
    proof {
        lemma_no_high_bits(mask, width);
        assert(1u64 << width >= 1) by (bit_vector)
            requires
                width < 64,
        ;
    }
    let width_mask: u64 = (1u64 << width) - 1;
    let rotated: u64 = ((mask >> turn) | (mask << (width - turn))) & width_mask;
    proof {
        assert forall|k: int| 0 <= k < 64 implies (#[trigger] bit(rotated, k) <==> (k < n
            && tags@[(head + k) % (n as int)] == tag)) by {
            lemma_rotate(mask, width, turn, rotated, k as u64);
            if k < n {
                vstd::arithmetic::div_mod::lemma_mod_bound(head + k, n as int);
                assert(bit(mask, (head + k) % (n as int)) <==> tags@[(head + k) % (n as int)]
                    == tag);
            }
        }
    }
    rotated
}

/// Whether two vectors hold the same items.
fn same_items<T: Copy + PartialEq>(left: &Vec<T>, right: &Vec<T>) -> (same: bool)
    requires
        T::obeys_eq_spec(),
        forall|a: T, b: T| #[trigger] a.eq_spec(&b) <==> a == b,
    ensures
        same == (left@ == right@),
{
    if left.len() != right.len() {
        return false;
    }
    let mut i: usize = 0;
    while i < left.len()
        invariant
            T::obeys_eq_spec(),
            forall|a: T, b: T| #[trigger] a.eq_spec(&b) <==> a == b,
            left@.len() == right@.len(),
            i <= left@.len(),
            forall|j: int| 0 <= j < i ==> #[trigger] left@[j] == right@[j],
        decreases left@.len() - i,
    {
        if left[i] != right[i] {
            return false;
        }
        i += 1;
    }
    assert(left@ =~= right@);
    true
}

/// Where a search of the table leaves a match.
#[derive(Clone, Copy, PartialEq, Eq, Debug, Structural)]
pub enum Searched {
    /// A match with a better score was found.
    Found,
    /// There was none, and there is no dictionary to ask.
    NotFound,
    /// There was none: the static dictionary is to be searched, within these bounds.
    AskDictionary { max_backward: usize, max_distance: usize },
}

/// A counter may wrap round before it is taken to a slot, as long as the number of slots divides the
/// counter's range.
proof fn lemma_ring_position(num: u16, head: int, k: int, block_bits: nat)
    requires
        block_bits <= 5,
        head == num.wrapping_add(1) as int % (pow2(block_bits) as int),
        0 <= k,
    ensures
        (head + k) % (pow2(block_bits) as int) == (num + 1 + k) % (pow2(block_bits) as int),
        1 <= pow2(block_bits) <= 32,
{
    vstd::arithmetic::power2::lemma2_to64();
    let n = pow2(block_bits) as int;
    assert(n == 1 || n == 2 || n == 4 || n == 8 || n == 16 || n == 32);
    assert(head == (num + 1) % n) by {
        if num == u16::MAX {
            assert(65536int % 1 == 0 && 65536int % 2 == 0 && 65536int % 4 == 0 && 65536int % 8 == 0
                && 65536int % 16 == 0 && 65536int % 32 == 0);
            vstd::arithmetic::div_mod::lemma_small_mod(0, n as nat);
        }
    }
    vstd::arithmetic::div_mod::lemma_fundamental_div_mod(num + 1, n);
    vstd::arithmetic::div_mod::lemma_mod_multiples_vanish((num + 1) / n, head + k, n);
}

/// A hash table of positions with their tags.
pub struct TaggedHasher<Specialization: TaggedHashSpecialization> {
    pub common: Struct1,
    pub specialization: Specialization,
    pub num: Vec<u16>,
    pub tags: Vec<u8>,
    pub buckets: Vec<u32>,
    pub h9_opts: H9Opts,
}

impl<Specialization: TaggedHashSpecialization> View for TaggedHasher<Specialization> {
    type V = TableView;

    open spec fn view(&self) -> TableView {
        TableView { num: self.num@, tags: self.tags@, buckets: self.buckets@ }
    }
}

impl<Specialization: TaggedHashSpecialization> PartialEq for TaggedHasher<Specialization> {
    fn eq(&self, other: &Self) -> (equal: bool) {
        self.common == other.common && self.specialization == other.specialization && same_items(
            &self.num,
            &other.num,
        ) && same_items(&self.tags, &other.tags) && same_items(&self.buckets, &other.buckets)
            && self.h9_opts == other.h9_opts
    }
}

impl<Specialization: TaggedHashSpecialization> PartialEqSpecImpl for TaggedHasher<Specialization> {
    open spec fn obeys_eq_spec() -> bool {
        Specialization::obeys_eq_spec()
    }

    open spec fn eq_spec(&self, other: &Self) -> bool {
        &&& self.common == other.common
        &&& self.specialization.eq_spec(&other.specialization)
        &&& self@ == other@
        &&& self.h9_opts == other.h9_opts
    }
}

impl<Specialization: TaggedHashSpecialization> TaggedHasher<Specialization> {
    /// The number of slots in a bucket.
    pub open spec fn spec_block_size(&self) -> int {
        pow2(self.specialization.spec_block_bits() as nat) as int
    }

    /// The number of buckets.
    pub open spec fn spec_bucket_size(&self) -> int {
        pow2(self.specialization.spec_bucket_bits() as nat) as int
    }

    /// The table has one counter for each bucket, and a tag and a position for each slot.
    pub open spec fn wf(&self) -> bool {
        &&& self.specialization.wf()
        &&& self.specialization.spec_bucket_bits() + self.specialization.spec_block_bits()
            < usize::BITS
        &&& self.num@.len() == self.spec_bucket_size()
        &&& self.tags@.len() == self.spec_bucket_size() * self.spec_block_size()
        &&& self.buckets@.len() == self.spec_bucket_size() * self.spec_block_size()
    }

    /// Only the table may differ between `self` and `other`.
    pub open spec fn same_settings(&self, other: &Self) -> bool {
        &&& self.common == other.common
        &&& self.specialization == other.specialization
        &&& self.h9_opts == other.h9_opts
    }

    /// What storing the position `ix` makes of `before`.
    pub open spec fn stores(&self, before: &Self, data: Seq<u8>, mask: usize, ix: usize) -> bool {
        &&& self.wf()
        &&& self.same_settings(before)
        &&& self@ == before@.store(before.specialization, data, mask, ix)
    }

    /// A search stores its position as [`TaggedHasher::Store`] does, whatever it finds: equal tables
    /// stay equal when one is searched and the other is stored to, their settings stay, and of either
    /// nothing changes but the counter of one bucket and the slot that it names.
    pub proof fn lemma_search_stores_as_store(
        before: Self,
        searched: Self,
        other: Self,
        stored: Self,
        data: Seq<u8>,
        mask: usize,
        ix: usize,
    )
        requires
            before.wf(),
            (ix & mask) + before.specialization.spec_hash_type_length() <= data.len(),
            other.same_settings(&before),
            other@ == before@,
            searched.stores(&before, data, mask, ix),
            stored.stores(&other, data, mask, ix),
        ensures
            searched.same_settings(&stored),
            searched.same_settings(&before),
            searched@ == stored@,
            ({
                let key = before.specialization.spec_hash(data.skip((ix & mask) as int)) / 256;
                let slot = key * before.spec_block_size() + before@.num[key] as int
                    % before.spec_block_size();
                &&& forall|k: int|
                    0 <= k < before@.num.len() && k != key ==> #[trigger] searched@.num[k]
                        == before@.num[k]
                &&& forall|k: int|
                    0 <= k < before@.tags.len() && k != slot ==> #[trigger] searched@.tags[k]
                        == before@.tags[k]
                &&& forall|k: int|
                    0 <= k < before@.buckets.len() && k != slot ==> #[trigger] searched@.buckets[k]
                        == before@.buckets[k]
            }),
    {
        let bytes = data.skip((ix & mask) as int);
        let key = before.specialization.spec_hash(bytes) / 256;
        before.specialization.lemma_hash_in_range(bytes);
        vstd::arithmetic::power2::lemma_pow2_pos(before.specialization.spec_block_bits() as nat);
        lemma_slot_in_bucket(
            key,
            before@.num[key] as int,
            before.spec_block_size(),
            before.spec_bucket_size(),
        );
    }

    /// Whether the table is as large as its specialization says.
    pub fn is_sized(&self) -> (sized: bool)
        ensures
            sized == self.wf(),
    {
        if !self.specialization.fits() {
            return false;
        }
        proof {
            let ghost some: Seq<u8> = Seq::new(
                self.specialization.spec_hash_type_length(),
                |i: int| 0u8,
            );
            self.specialization.lemma_hash_in_range(some);
            vstd::arithmetic::power2::lemma_pow2_adds(
                self.specialization.spec_bucket_bits() as nat,
                self.specialization.spec_block_bits() as nat,
            );
            vstd::bits::lemma_usize_pow2_no_overflow(
                (self.specialization.spec_bucket_bits() + self.specialization.spec_block_bits()) as nat,
            );
        }
        let bucket_size: usize = self.specialization.bucket_size();
        let table_size: usize = bucket_size * self.specialization.block_size();
        self.num.len() == bucket_size && self.tags.len() == table_size && self.buckets.len()
            == table_size
    }

    /// A table with nothing in it, ready for use.
    pub fn new(params: &BrotliHasherParams, specialization: Specialization) -> (hasher: Self)
        requires
            specialization.wf(),
        ensures
            hasher.wf(),
            hasher.common == (Struct1 {
                params: *params,
                is_prepared_: 1,
                dict_num_lookups: 0,
                dict_num_matches: 0,
            }),
            hasher.specialization == specialization,
            hasher.h9_opts == H9Opts::spec_new(*params),
            hasher@ == (TableView {
                num: Seq::new(
                    pow2(specialization.spec_bucket_bits() as nat),
                    |i: int| u16::MAX,
                ),
                tags: Seq::new(hasher@.tags.len(), |i: int| 0),
                buckets: Seq::new(hasher@.buckets.len(), |i: int| 0),
            }),
    {
        proof {
            let ghost some: Seq<u8> = Seq::new(
                specialization.spec_hash_type_length(),
                |i: int| 0u8,
            );
            specialization.lemma_hash_in_range(some);
            vstd::arithmetic::power2::lemma_pow2_adds(
                specialization.spec_bucket_bits() as nat,
                specialization.spec_block_bits() as nat,
            );
            vstd::bits::lemma_usize_pow2_no_overflow(
                (specialization.spec_bucket_bits() + specialization.spec_block_bits()) as nat,
            );
        }
        let bucket_size: usize = specialization.bucket_size();
        let table_size: usize = bucket_size * specialization.block_size();
        let hasher = TaggedHasher {
            common: Struct1 {
                params: *params,
                is_prepared_: 1,
                dict_num_lookups: 0,
                dict_num_matches: 0,
            },
            specialization,
            num: vec![u16::MAX; bucket_size],
            tags: vec![0u8; table_size],
            buckets: vec![0u32; table_size],
            h9_opts: H9Opts::new(params),
        };
        hasher
    }

    /// Takes the hash at the start of `data` apart into a bucket and a tag.
    fn hash_parts(&self, data: &[u8]) -> (parts: (usize, u8))
        requires
            self.wf(),
            data@.len() >= self.specialization.spec_hash_type_length(),
        ensures
            parts.0 == self.specialization.spec_hash(data@) / 256,
            parts.1 == self.specialization.spec_hash(data@) % 256,
            parts.0 < self.num@.len(),
    {
        let hash: usize = self.specialization.hash(data);
        proof {
            self.specialization.lemma_hash_in_range(data@);
        }
        (hash / 256, (hash % 256) as u8)
    }

    /// The slot that is written next in bucket `key`.
    fn next_slot(&self, key: usize) -> (slot: usize)
        requires
            self.wf(),
            key < self.num@.len(),
        ensures
            slot == key * self.spec_block_size() + self.num@[key as int] as int
                % self.spec_block_size(),
            slot < self.tags@.len(),
    {
        let counter: usize = self.num[key] as usize;
        self.ring_slot(key, counter)
    }

    /// The slot of bucket `key` that `counter` names.
    fn ring_slot(&self, key: usize, counter: usize) -> (slot: usize)
        requires
            self.wf(),
            key < self.num@.len(),
        ensures
            slot == key * self.spec_block_size() + counter as int % self.spec_block_size(),
            slot < self.tags@.len(),
    {
        let block_bits: u32 = self.specialization.block_bits();
        let block_mask: usize = self.specialization.block_mask();
        let ghost bs = self.spec_block_size();
        proof {
            vstd::arithmetic::power2::lemma_pow2_pos(block_bits as nat);
            vstd::bits::lemma_usize_low_bits_mask_is_mod(counter, block_bits as nat);
            vstd::bits::lemma_usize_pow2_no_overflow(block_bits as nat);
            vstd::arithmetic::power2::lemma_pow2_adds(
                self.specialization.spec_bucket_bits() as nat,
                block_bits as nat,
            );
            vstd::bits::lemma_usize_pow2_no_overflow(
                (self.specialization.spec_bucket_bits() + block_bits) as nat,
            );
            assert(key * bs + bs <= self.num@.len() * bs) by (nonlinear_arith)
                requires
                    key + 1 <= self.num@.len(),
                    bs > 0,
            ;
            vstd::bits::lemma_usize_shl_is_mul(key, block_bits as usize);
        }
        (key << block_bits) + (counter & block_mask)
    }

    /// Puts position `ix` with its tag into bucket `key`.
    fn put(&mut self, key: usize, tag: u8, ix: usize)
        requires
            old(self).wf(),
            key < old(self).num@.len(),
        ensures
            final(self).wf(),
            final(self).same_settings(old(self)),
            final(self)@ == old(self)@.put(key as int, tag, ix, old(self).spec_block_size()),
    {
        let offset: usize = self.next_slot(key);
        let counter: u16 = self.num[key];
        self.num[key] = counter.wrapping_sub(1);
        #[verifier::truncate]
        let position: u32 = ix as u32;
        self.buckets[offset] = position;
        self.tags[offset] = tag;
    }

    /// Stores the position `ix` of a ring buffer under its hash.
    fn store(&mut self, data: &[u8], mask: usize, ix: usize)
        requires
            old(self).wf(),
            (ix & mask) + old(self).specialization.spec_hash_type_length() <= data@.len(),
        ensures
            final(self).stores(old(self), data@, mask, ix),
    {
        let at: usize = ix & mask;
        let (key, tag) = self.hash_parts(&data[at..data.len()]);
        assert(data@.subrange(at as int, data@.len() as int) =~= data@.skip(at as int));
        self.put(key, tag, ix);
    }

    /// Which entries of bucket `key` carry `tag`: bit `k` stands for the `k`-th newest.
    fn candidates(&self, key: usize, tag: u8) -> (matches: u64)
        requires
            self.wf(),
            self.specialization.spec_block_bits() <= 5,
            key < self.num@.len(),
        ensures
            forall|k: int|
                0 <= k < 64 ==> (#[trigger] bit(matches, k) <==> k < self@.visible(
                    key as int,
                    self.spec_block_size(),
                ) && self@.entries(key as int, self.spec_block_size())[k].1 == tag),
    {
        let num: u16 = self.num[key];
        let block_size: usize = self.specialization.block_size();
        let block_bits: u32 = self.specialization.block_bits();
        let ghost entries = self@.entries(key as int, self.spec_block_size());
        proof {
            lemma_ring_position(
                num,
                num.wrapping_add(1) as int % self.spec_block_size(),
                0,
                block_bits as nat,
            );
            vstd::bits::lemma_usize_low_bits_mask_is_mod(
                num.wrapping_add(1) as usize,
                block_bits as nat,
            );
        }
        let head: usize = num.wrapping_add(1) as usize & self.specialization.block_mask();
        let block_start: usize = self.ring_slot(key, 0);
        let table_size: usize = self.tags.len();
        proof {
            assert(table_size == self.num@.len() * block_size);
            vstd::arithmetic::div_mod::lemma_small_mod(0, block_size as nat);
            assert(key * block_size + block_size <= self.num@.len() * block_size)
                by (nonlinear_arith)
                requires
                    key + 1 <= self.num@.len(),
                    block_size > 0,
            ;
        }
        let mut matches: u64 = matching_tag_mask(
            tag,
            &self.tags[block_start..block_start + block_size],
            head,
        );
        proof {
            assert forall|k: int| 0 <= k < 64 implies (#[trigger] bit(matches, k) <==> k
                < block_size && self@.tags[self@.slot(key as int, k, block_size as int)] == tag) by {
                if k < block_size {
                    lemma_ring_position(num, head as int, k, block_bits as nat);
                    vstd::arithmetic::div_mod::lemma_mod_bound(head + k, block_size as int);
                }
            }
        }
        let stored: usize = u16::MAX.wrapping_sub(num) as usize;
        if stored < block_size {
            let shift: u64 = stored as u64;
            let ghost all = matches;
            assert(1u64 << shift >= 1) by (bit_vector)
                requires
                    shift < 64,
            ;
            matches = matches & ((1u64 << shift) - 1);
            proof {
                let seen = matches;
                assert forall|k: int| 0 <= k < 64 implies (#[trigger] bit(seen, k) <==> bit(all, k)
                    && k < shift) by {
                    let j = k as u64;
                    assert((seen >> j) & 1 == 1 <==> ((all >> j) & 1 == 1 && j < shift))
                        by (bit_vector)
                        requires
                            seen == all & (((1u64 << shift) - 1) as u64),
                            shift < 64,
                            j < 64,
                    ;
                }
            }
        }
        matches
    }

    /// Tries what bucket `key` holds under `tag`, newest first.
    fn search_bucket(
        &self,
        context: &SearchContext<'_>,
        key: usize,
        tag: u8,
        start: SearchState,
    ) -> (end: SearchState)
        requires
            self.wf(),
            self.specialization.spec_block_bits() <= 5,
            key < self.num@.len(),
            start.best_len >= 3,
        ensures
            end == context.spec_try_bucket(
                self@.entries(key as int, self.spec_block_size()),
                tag,
                0,
                start,
            ),
    {
        let ghost entries = self@.entries(key as int, self.spec_block_size());
        let num: u16 = self.num[key];
        let head: usize = num.wrapping_add(1) as usize;
        let mut matches: u64 = self.candidates(key, tag);
        let mut state = start;
        let ghost mut next: int = 0;
        proof {
            lemma_ring_position(
                num,
                num.wrapping_add(1) as int % self.spec_block_size(),
                0,
                self.specialization.spec_block_bits() as nat,
            );
        }
        while matches != 0
            invariant
                self.wf(),
                self.specialization.spec_block_bits() <= 5,
                key < self.num@.len(),
                num == self.num@[key as int],
                head == num.wrapping_add(1),
                state.best_len >= 3,
                entries == self@.entries(key as int, self.spec_block_size()),
                0 <= next <= entries.len(),
                entries.len() <= 32,
                forall|k: int|
                    0 <= k < 64 ==> (#[trigger] bit(matches, k) <==> next <= k < entries.len()
                        && entries[k].1 == tag),
                context.spec_try_bucket(entries, tag, next, state) == context.spec_try_bucket(
                    entries,
                    tag,
                    0,
                    start,
                ),
            decreases matches,
        {
            let lane: u32 = matches.trailing_zeros();
            let rest: u64 = matches & (matches - 1);
            proof {
                crate::vectorization::lemma_clear_lowest(matches, rest, lane as u64);
                assert(bit(matches, lane as int));
                assert forall|i: int| next <= i < lane implies (#[trigger] entries[i]).1 != tag by {
                    assert(!bit(matches, i));
                }
                context.lemma_skip(entries, tag, next, lane as int, state);
                let block_bits = self.specialization.spec_block_bits() as nat;
                let first = head as int % self.spec_block_size();
                lemma_ring_position(num, first, lane as int, block_bits);
                vstd::arithmetic::div_mod::lemma_fundamental_div_mod(
                    head as int,
                    self.spec_block_size(),
                );
                vstd::arithmetic::div_mod::lemma_mod_multiples_vanish(
                    head as int / self.spec_block_size(),
                    first + lane,
                    self.spec_block_size(),
                );
            }
            let slot: usize = self.ring_slot(key, head + lane as usize);
            let position: u32 = self.buckets[slot];
            match context.try_candidate(
                position,
                self.specialization.compare_from_four(),
                state,
            ) {
                None => {
                    return state;
                },
                Some(after) => {
                    state = after;
                },
            }
            matches = rest;
            proof {
                next = lane + 1;
            }
        }
        proof {
            assert forall|i: int| next <= i < entries.len() implies (#[trigger] entries[i]).1
                != tag by {
                let j = i as u64;
                assert((0u64 >> j) & 1 == 0) by (bit_vector);
                assert(!bit(matches, i));
            }
            context.lemma_skip(entries, tag, next, entries.len() as int, state);
        }
        state
    }

    /// Searches the longest match for the bytes at `cur_ix`, at the recent distances and at the
    /// positions of its bucket, and stores `cur_ix` in that bucket. Only where no match has a better
    /// score than the one in `out` is the static dictionary to be asked.
    pub fn find_longest_match_simd(
        &mut self,
        has_dictionary: bool,
        data: &[u8],
        ring_buffer_mask: usize,
        ring_buffer_break: Option<usize>,
        distance_cache: &[i32],
        cur_ix: usize,
        max_length: usize,
        max_backward: usize,
        gap: usize,
        max_distance: usize,
        out: &mut HasherSearchResult,
    ) -> (searched: Searched)
        requires
            old(self).wf(),
            old(self).specialization.spec_block_bits() <= 5,
            (cur_ix & ring_buffer_mask) + old(self).specialization.spec_hash_type_length()
                <= data@.len(),
            0 <= old(self).common.params.num_last_distances_to_check <= distance_cache@.len(),
        ensures
            final(self).stores(old(self), data@, ring_buffer_mask, cur_ix),
            ({
                let context = (SearchContext {
                    data,
                    ring_buffer_mask,
                    ring_buffer_break,
                    cur_ix,
                    max_length,
                    max_backward,
                    opts: old(self).h9_opts,
                });
                let hash = old(self).specialization.spec_hash(
                    data@.skip((cur_ix & ring_buffer_mask) as int),
                );
                let end = context.spec_search(
                    distance_cache@,
                    old(self).common.params.num_last_distances_to_check as int,
                    old(self)@.entries(hash / 256, old(self).spec_block_size()),
                    (hash % 256) as u8,
                    *old(out),
                );
                &&& *final(out) == end.out
                &&& searched == if end.out.score == old(out).score && has_dictionary {
                    Searched::AskDictionary {
                        max_backward: max_backward.wrapping_add(gap),
                        max_distance,
                    }
                } else if end.found {
                    Searched::Found
                } else {
                    Searched::NotFound
                }
            }),
    {
        let context = SearchContext {
            data,
            ring_buffer_mask,
            ring_buffer_break,
            cur_ix,
            max_length,
            max_backward,
            opts: self.h9_opts,
        };
        let cur_ix_masked: usize = cur_ix & ring_buffer_mask;
        let min_score: u64 = out.score;
        assert(data@.subrange(cur_ix_masked as int, data@.len() as int) =~= data@.skip(
            cur_ix_masked as int,
        ));
        let (key, tag) = self.hash_parts(&data[cur_ix_masked..data.len()]);
        let recent: usize = self.common.params.num_last_distances_to_check as usize;
        let state = context.try_all_recent(distance_cache, recent, SearchState::start(*out));
        let end = self.search_bucket(&context, key, tag, state.for_bucket());
        *out = end.out;
        self.put(key, tag, cur_ix);
        if min_score == end.out.score && has_dictionary {
            Searched::AskDictionary { max_backward: max_backward.wrapping_add(gap), max_distance }
        } else if end.found {
            Searched::Found
        } else {
            Searched::NotFound
        }
    }

    /// How literals are weighed.
    pub fn Opts(&self) -> (opts: H9Opts)
        ensures
            opts == self.h9_opts,
    {
        self.h9_opts
    }

    /// The part that every match finder has.
    pub fn GetHasherCommon(&mut self) -> (common: &mut Struct1)
        ensures
            *common == old(self).common,
            final(self).common == *final(common),
            final(self).specialization == old(self).specialization,
            final(self).h9_opts == old(self).h9_opts,
            final(self)@ == old(self)@,
    {
        &mut self.common
    }

    /// The bucket of the bytes at the start of `data`.
    pub fn HashBytes(&self, data: &[u8]) -> (key: usize)
        requires
            self.wf(),
            data@.len() >= self.specialization.spec_hash_type_length(),
        ensures
            key == self.specialization.spec_hash(data@) / 256,
            key < self.num@.len(),
    {
        let (key, _tag) = self.hash_parts(data);
        key
    }

    /// How many bytes a hash reads.
    pub fn HashTypeLength(&self) -> (length: usize)
        ensures
            length == self.specialization.spec_hash_type_length(),
            length > 0,
    {
        self.specialization.hash_type_length()
    }

    /// How many bytes must follow a position before it can be stored.
    pub fn StoreLookahead(&self) -> (length: usize)
        ensures
            length == self.specialization.spec_hash_type_length(),
            length > 0,
    {
        self.specialization.hash_type_length()
    }

    /// Fills the distance cache as far as the parameters ask for.
    pub fn PrepareDistanceCache(&self, distance_cache: &mut [i32])
        requires
            self.common.params.num_last_distances_to_check > 4 ==> old(distance_cache)@.len() >= 10
                && i32::MIN + 3 <= old(distance_cache)@[0] <= i32::MAX - 3,
            self.common.params.num_last_distances_to_check > 10 ==> old(distance_cache)@.len() >= 16
                && i32::MIN + 3 <= old(distance_cache)@[1] <= i32::MAX - 3,
        ensures
            final(distance_cache)@.len() == old(distance_cache)@.len(),
            forall|i: int|
                0 <= i < old(distance_cache)@.len() ==> #[trigger] final(distance_cache)@[i]
                    == super::prepared_distance(
                    old(distance_cache)@,
                    self.common.params.num_last_distances_to_check,
                    i,
                ),
    {
        adv_prepare_distance_cache(distance_cache, self.common.params.num_last_distances_to_check);
    }

    /// Stores the position `ix` of a ring buffer under its hash.
    pub fn Store(&mut self, data: &[u8], mask: usize, ix: usize)
        requires
            old(self).wf(),
            (ix & mask) + old(self).specialization.spec_hash_type_length() <= data@.len(),
        ensures
            final(self).stores(old(self), data@, mask, ix),
    {
        self.store(data, mask, ix);
    }

    /// Stores the positions from `ix_start` up to `ix_end`, in order.
    pub fn StoreRange(&mut self, data: &[u8], mask: usize, ix_start: usize, ix_end: usize)
        requires
            old(self).wf(),
            forall|ix: usize|
                ix_start <= ix < ix_end ==> #[trigger] (ix & mask)
                    + old(self).specialization.spec_hash_type_length() <= data@.len(),
        ensures
            final(self).wf(),
            final(self).same_settings(old(self)),
            final(self)@ == old(self)@.store_range(
                old(self).specialization,
                data@,
                mask,
                ix_start as int,
                ix_end as int,
            ),
    {
        let mut ix: usize = ix_start;
        while ix < ix_end
            invariant
                self.wf(),
                self.same_settings(old(self)),
                ix_start <= ix,
                ix <= ix_end || ix == ix_start,
                forall|ix: usize|
                    ix_start <= ix < ix_end ==> #[trigger] (ix & mask)
                        + old(self).specialization.spec_hash_type_length() <= data@.len(),
                self@ == old(self)@.store_range(
                    old(self).specialization,
                    data@,
                    mask,
                    ix_start as int,
                    ix as int,
                ),
            decreases ix_end - ix,
        {
            self.store(data, mask, ix);
            ix += 1;
        }
    }

    /// Stores the positions from `ix_start` up to `ix_end`, in order.
    pub fn BulkStoreRange(&mut self, data: &[u8], mask: usize, ix_start: usize, ix_end: usize)
        requires
            old(self).wf(),
            forall|ix: usize|
                ix_start <= ix < ix_end ==> #[trigger] (ix & mask)
                    + old(self).specialization.spec_hash_type_length() <= data@.len(),
        ensures
            final(self).wf(),
            final(self).same_settings(old(self)),
            final(self)@ == old(self)@.store_range(
                old(self).specialization,
                data@,
                mask,
                ix_start as int,
                ix_end as int,
            ),
    {
        self.StoreRange(data, mask, ix_start, ix_end);
    }

    /// Whether preparing for an input of `input_size` bytes empties only the buckets that the input
    /// can reach.
    pub open spec fn prepares_partially(&self, one_shot: bool, input_size: usize) -> bool {
        one_shot && input_size <= self.spec_bucket_size() / 64
    }

    /// Some position of the first `input_size` bytes hashes into bucket `key`.
    pub open spec fn reaches(&self, data: Seq<u8>, input_size: int, key: int) -> bool {
        exists|ix: int|
            0 <= ix < input_size && #[trigger] self.specialization.spec_hash(data.skip(ix)) / 256
                == key
    }

    /// Empties the table for a new input unless that was done already. For a short input that comes
    /// whole, only the buckets that it can reach are emptied.
    pub fn Prepare(&mut self, one_shot: bool, input_size: usize, data: &[u8]) -> (how: HowPrepared)
        requires
            old(self).wf(),
            old(self).common.is_prepared_ == 0 && old(self).prepares_partially(one_shot, input_size)
                && input_size > 0 ==> input_size - 1
                + old(self).specialization.spec_hash_type_length() <= data@.len(),
        ensures
            final(self).wf(),
            final(self).specialization == old(self).specialization,
            final(self).h9_opts == old(self).h9_opts,
            final(self)@.tags == old(self)@.tags,
            final(self)@.buckets == old(self)@.buckets,
            old(self).common.is_prepared_ != 0 ==> how == HowPrepared::ALREADY_PREPARED
                && final(self)@.num == old(self)@.num && final(self).common == old(self).common,
            old(self).common.is_prepared_ == 0 ==> {
                &&& how == HowPrepared::NEWLY_PREPARED
                &&& final(self).common == (Struct1 { is_prepared_: 1, ..old(self).common })
                &&& forall|key: int|
                    0 <= key < old(self)@.num.len() ==> #[trigger] final(self)@.num[key] == if old(
                        self,
                    ).prepares_partially(one_shot, input_size) && !old(self).reaches(
                        data@,
                        input_size as int,
                        key,
                    ) {
                        old(self)@.num[key]
                    } else {
                        u16::MAX
                    }
            },
    {
        if self.common.is_prepared_ != 0 {
            return HowPrepared::ALREADY_PREPARED;
        }
        let partial_prepare_threshold: usize = self.specialization.bucket_size() / 64;
        if one_shot && input_size <= partial_prepare_threshold {
            let mut ix: usize = 0;
            while ix < input_size
                invariant
                    self.wf(),
                    self.same_settings(old(self)),
                    ix <= input_size,
                    input_size > 0 ==> input_size - 1
                        + self.specialization.spec_hash_type_length() <= data@.len(),
                    self@.tags == old(self)@.tags,
                    self@.buckets == old(self)@.buckets,
                    self@.num.len() == old(self)@.num.len(),
                    forall|key: int|
                        0 <= key < old(self)@.num.len() ==> #[trigger] self@.num[key] == if old(
                            self,
                        ).reaches(data@, ix as int, key) {
                            u16::MAX
                        } else {
                            old(self)@.num[key]
                        },
                decreases input_size - ix,
            {
                let key: usize = self.HashBytes(&data[ix..data.len()]);
                assert(data@.subrange(ix as int, data@.len() as int) =~= data@.skip(ix as int));
                self.num[key] = u16::MAX;
                proof {
                    assert forall|k: int| 0 <= k < old(self)@.num.len() implies old(self).reaches(
                        data@,
                        ix + 1,
                        k,
                    ) == (old(self).reaches(data@, ix as int, k) || k == key) by {
                        assert(old(self).specialization.spec_hash(data@.skip(ix as int)) / 256
                            == key);
                        if old(self).reaches(data@, ix as int, k) {
                            let j = choose|j: int|
                                0 <= j < ix && #[trigger] old(self).specialization.spec_hash(
                                    data@.skip(j),
                                ) / 256 == k;
                            assert(old(self).specialization.spec_hash(data@.skip(j)) / 256 == k);
                        }
                    }
                }
                ix += 1;
            }
        } else {
            let mut key: usize = 0;
            while key < self.num.len()
                invariant
                    self.wf(),
                    self.same_settings(old(self)),
                    key <= self.num@.len(),
                    self@.tags == old(self)@.tags,
                    self@.buckets == old(self)@.buckets,
                    self@.num.len() == old(self)@.num.len(),
                    forall|k: int| 0 <= k < key ==> #[trigger] self@.num[k] == u16::MAX,
                decreases self.num@.len() - key,
            {
                self.num[key] = u16::MAX;
                key += 1;
            }
        }
        self.common.is_prepared_ = 1;
        HowPrepared::NEWLY_PREPARED
    }

    /// Stores the last three positions before `position`, whose hashes reach into the new block, if
    /// that block is long enough.
    pub fn StitchToPreviousBlock(
        &mut self,
        num_bytes: usize,
        position: usize,
        ringbuffer: &[u8],
        ringbuffer_mask: usize,
    )
        requires
            old(self).wf(),
            num_bytes + 1 >= old(self).specialization.spec_hash_type_length() && position >= 3 ==> {
                &&& ((position - 3) as usize & ringbuffer_mask)
                    + old(self).specialization.spec_hash_type_length() <= ringbuffer@.len()
                &&& ((position - 2) as usize & ringbuffer_mask)
                    + old(self).specialization.spec_hash_type_length() <= ringbuffer@.len()
                &&& ((position - 1) as usize & ringbuffer_mask)
                    + old(self).specialization.spec_hash_type_length() <= ringbuffer@.len()
            },
        ensures
            final(self).wf(),
            final(self).same_settings(old(self)),
            final(self)@ == if num_bytes + 1 >= old(self).specialization.spec_hash_type_length()
                && position >= 3 {
                old(self)@.store_range(
                    old(self).specialization,
                    ringbuffer@,
                    ringbuffer_mask,
                    position - 3,
                    position as int,
                )
            } else {
                old(self)@
            },
    {
        let reach: usize = self.HashTypeLength();
        if num_bytes >= reach - 1 && position >= 3 {
            proof {
                reveal_with_fuel(TableView::store_range, 4);
            }
            self.store(ringbuffer, ringbuffer_mask, position - 3);
            self.store(ringbuffer, ringbuffer_mask, position - 2);
            self.store(ringbuffer, ringbuffer_mask, position - 1);
        }
    }

    /// A copy of the whole table.
    pub fn clone_with_alloc(&self) -> (copy: Self)
        ensures
            copy.same_settings(self),
            copy@ == self@,
    {
        let num = self.num.clone();
        let tags = self.tags.clone();
        let buckets = self.buckets.clone();
        TaggedHasher {
            common: self.common,
            specialization: self.specialization,
            num,
            tags,
            buckets,
            h9_opts: self.h9_opts,
        }
    }
}

} // verus!
