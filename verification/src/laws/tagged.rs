//! Laws of the tagged hash table.
use crate::backward_references::tagged::{
    matching_tag_mask, H58Sub, H68Sub, TableView, TaggedHashSpecialization, TaggedHasher,
};
use crate::backward_references::{
    adv_prepare_distance_cache, BrotliHasherParams, H9Opts, HowPrepared, Struct1,
};
use vstd::arithmetic::power2::pow2;
use vstd::prelude::*;
use vstd::std_specs::cmp::PartialEqSpec;

verus! {

/// Nothing but the table differs.
pub open spec fn same_settings<S: TaggedHashSpecialization>(
    a: TaggedHasher<S>,
    b: TaggedHasher<S>,
) -> bool {
    &&& a.common.params == b.common.params
    &&& a.common.is_prepared_ == b.common.is_prepared_
    &&& a.common.dict_num_lookups == b.common.dict_num_lookups
    &&& a.common.dict_num_matches == b.common.dict_num_matches
    &&& a.specialization == b.specialization
    &&& a.h9_opts.literal_byte_score == b.h9_opts.literal_byte_score
}

/// The first four bytes, the first as the lowest.
pub open spec fn four_bytes(data: Seq<u8>) -> int {
    data[0] + 0x100 * data[1] + 0x1_0000 * data[2] + 0x100_0000 * data[3]
}

/// A four-byte hash is made of the highest bits of the bytes times a constant: as many as name a bucket,
/// and eight for the tag.
pub proof fn law_hash_of_four(sub: H58Sub, data: Seq<u8>)
    requires
        sub.wf(),
        data.len() >= 4,
    ensures
        ({
            let product = (four_bytes(data) * 0x1e35_a7bd) % 0x1_0000_0000;
            let unit = pow2((24 - sub.bucket_bits) as nat) as int;
            &&& sub.spec_hash(data) * unit <= product < (sub.spec_hash(data) + 1) * unit
        }),
        sub.spec_hash_type_length() == 4,
        sub.spec_bucket_bits() == sub.bucket_bits,
        sub.spec_block_bits() == sub.block_bits,
        !sub.spec_compare_from_four(),
{
    let product = (four_bytes(data) * 0x1e35_a7bd) % 0x1_0000_0000;
    let unit = pow2((24 - sub.bucket_bits) as nat) as int;
    vstd::arithmetic::power2::lemma_pow2_pos((24 - sub.bucket_bits) as nat);
    vstd::arithmetic::div_mod::lemma_fundamental_div_mod(product, unit);
    vstd::arithmetic::div_mod::lemma_mod_bound(product, unit);
    assert(sub.spec_hash(data) == product / unit);
    assert(unit * (product / unit) == (product / unit) * unit && (product / unit + 1) * unit == (
    product / unit) * unit + unit) by (nonlinear_arith);
}

/// A five-byte hash is made of the highest twenty-three bits of the product of the first five bytes, moved
/// up to the end of a word, with a constant.
pub proof fn law_hash_of_five(sub: H68Sub, data: Seq<u8>)
    requires
        data.len() >= 8,
    ensures
        ({
            let five = four_bytes(data) + 0x1_0000_0000 * data[4];
            let product = (five * 0x1e35_a7bd_1e35_a7bd * 0x100_0000) % 0x1_0000_0000_0000_0000;
            sub.spec_hash(data) == product / 0x200_0000_0000
        }),
        sub.spec_hash_type_length() == 8,
        sub.spec_bucket_bits() == 15,
        sub.spec_block_bits() == sub.block_bits,
        sub.spec_compare_from_four(),
{
    let w = 0x1_0000_0000_0000_0000int;
    let low = four_bytes(data);
    let high = data[4] + 0x100 * data[5] + 0x1_0000 * data[6] + 0x100_0000 * data[7];
    let five = low + 0x1_0000_0000 * data[4];
    let rest = data[5] + 0x100 * data[6] + 0x1_0000 * data[7];
    assert(data.skip(4)[0] == data[4] && data.skip(4)[1] == data[5] && data.skip(4)[2] == data[6]
        && data.skip(4)[3] == data[7]);
    let eight = crate::static_dict::load64(data);
    assert(eight == five + 0x100_0000_0000 * rest);
    let k = (0x1e35_a7bd_1e35_a7bdint * 0x100_0000) % w;
    let q = (0x1e35_a7bd_1e35_a7bdint * 0x100_0000) / w;
    assert(0x1e35_a7bd_1e35_a7bdint * 0x100_0000 == w * q + k);
    let whole = five * 0x1e35_a7bd_1e35_a7bd * 0x100_0000;
    assert(eight * k == whole + w * (rest * 0x1e35_a7bd_1e35_a7bd - eight * q)) by (nonlinear_arith)
        requires
            eight == five + 0x100_0000_0000 * rest,
            whole == five * 0x1e35_a7bd_1e35_a7bd * 0x100_0000,
            0x1e35_a7bd_1e35_a7bdint * 0x100_0000 == w * q + k,
            w == 0x1_0000_0000_0000_0000int,
    ;
    vstd::arithmetic::div_mod::lemma_mod_multiples_vanish(
        rest * 0x1e35_a7bd_1e35_a7bd - eight * q,
        whole,
        w,
    );
}

/// A new table has a counter for each bucket, which stands at its start, and room for as many positions
/// as each bucket has slots. It is ready for use.
pub proof fn law_new_table<S: TaggedHashSpecialization>(
    params: BrotliHasherParams,
    specialization: S,
    hasher: TaggedHasher<S>,
)
    requires
        call_ensures(TaggedHasher::<S>::new, (&params, specialization), hasher),
    ensures
        hasher.common.params == params,
        hasher.common.is_prepared_ == 1,
        hasher.common.dict_num_lookups == 0 && hasher.common.dict_num_matches == 0,
        hasher.specialization == specialization,
        params.literal_byte_score == 0 ==> hasher.h9_opts.literal_byte_score == 540,
        params.literal_byte_score != 0 ==> hasher.h9_opts.literal_byte_score
            == params.literal_byte_score,
        hasher.num@.len() == pow2(specialization.spec_bucket_bits() as nat),
        hasher.buckets@.len() == hasher.num@.len() * pow2(specialization.spec_block_bits() as nat),
        hasher.tags@.len() == hasher.buckets@.len(),
        forall|i: int| 0 <= i < hasher.num@.len() ==> #[trigger] hasher.num@[i] == 65535,
{
}

/// Storing a position counts its bucket down, and writes the position and its tag to the slot that the
/// counter named. Nothing else changes.
pub proof fn law_store<S: TaggedHashSpecialization>(
    hasher: &mut TaggedHasher<S>,
    data: &[u8],
    mask: usize,
    ix: usize,
)
    requires
        old(hasher).wf(),
        (ix & mask) + old(hasher).specialization.spec_hash_type_length() <= data@.len(),
        call_ensures(TaggedHasher::<S>::Store, (hasher, data, mask, ix), ()),
    ensures
        ({
            let hash = old(hasher).specialization.spec_hash(data@.skip((ix & mask) as int));
            let size = pow2(old(hasher).specialization.spec_block_bits() as nat) as int;
            let key = hash / 256;
            let slot = key * size + old(hasher).num@[key] as int % size;
            &&& 0 <= key < old(hasher).num@.len()
            &&& 0 <= slot < old(hasher).buckets@.len()
            &&& final(hasher).num@.len() == old(hasher).num@.len()
            &&& old(hasher).num@[key] > 0 ==> final(hasher).num@[key] == old(hasher).num@[key] - 1
            &&& old(hasher).num@[key] == 0 ==> final(hasher).num@[key] == 65535
            &&& forall|k: int|
                0 <= k < old(hasher).num@.len() && k != key ==> #[trigger] final(hasher).num@[k]
                    == old(hasher).num@[k]
            &&& final(hasher).buckets@[slot] == ix as int % 0x1_0000_0000
            &&& final(hasher).tags@[slot] == hash % 256
            &&& forall|k: int|
                0 <= k < old(hasher).buckets@.len() && k != slot ==> #[trigger] final(
                    hasher).buckets@[k] == old(hasher).buckets@[k]
            &&& forall|k: int|
                0 <= k < old(hasher).tags@.len() && k != slot ==> #[trigger] final(hasher).tags@[k]
                    == old(hasher).tags@[k]
        }),
        same_settings(*final(hasher), *old(hasher)),
{
    assert(ix as u32 == ix as u64 % 0x1_0000_0000u64) by (bit_vector);
    let bytes = data@.skip((ix & mask) as int);
    let before = *old(hasher);
    let key = before.specialization.spec_hash(bytes) / 256;
    let size = pow2(before.specialization.spec_block_bits() as nat) as int;
    let buckets = pow2(before.specialization.spec_bucket_bits() as nat) as int;
    before.specialization.lemma_hash_in_range(bytes);
    vstd::arithmetic::power2::lemma_pow2_pos(before.specialization.spec_block_bits() as nat);
    let offset = before.num@[key] as int % size;
    vstd::arithmetic::div_mod::lemma_mod_bound(before.num@[key] as int, size);
    assert(0 <= key * size && key * size + size <= buckets * size) by (nonlinear_arith)
        requires
            0 <= key < buckets,
            size > 0,
    ;
}

/// The name of a bucket is its hash without the tag.
pub proof fn law_hash_bytes<S: TaggedHashSpecialization>(
    hasher: TaggedHasher<S>,
    data: &[u8],
    key: usize,
)
    requires
        hasher.wf(),
        data@.len() >= hasher.specialization.spec_hash_type_length(),
        call_ensures(TaggedHasher::<S>::HashBytes, (&hasher, data), key),
    ensures
        key * 256 <= hasher.specialization.spec_hash(data@) < (key + 1) * 256,
        key < pow2(hasher.specialization.spec_bucket_bits() as nat),
{
}

/// Storing a range of positions is storing them one by one: nothing for an empty range, and the last one
/// after those before it.
pub proof fn law_store_range<S: TaggedHashSpecialization>(
    table: TableView,
    specialization: S,
    data: Seq<u8>,
    mask: usize,
    start: usize,
    end: usize,
)
    ensures
        start >= end ==> table.store_range(
            specialization,
            data,
            mask,
            start as int,
            end as int,
        ) == table,
        start <= end < usize::MAX ==> table.store_range(
            specialization,
            data,
            mask,
            start as int,
            end + 1,
        ) == table.store_range(specialization, data, mask, start as int, end as int).store(
            specialization,
            data,
            mask,
            end,
        ),
{
}

/// Storing a range, in whichever way, and storing the position behind it, is storing a range that is one
/// longer.
pub proof fn law_store_range_and_one<S: TaggedHashSpecialization>(
    one: &mut TaggedHasher<S>,
    other: &mut TaggedHasher<S>,
    third: &mut TaggedHasher<S>,
    data: &[u8],
    mask: usize,
    start: usize,
    end: usize,
)
    requires
        start <= end < usize::MAX,
        old(one).specialization == old(other).specialization,
        old(one)@ == old(other)@,
        call_ensures(TaggedHasher::<S>::StoreRange, (one, data, mask, start, end), ()),
        *old(third) == *final(one),
        call_ensures(TaggedHasher::<S>::Store, (third, data, mask, end), ()),
        call_ensures(
            TaggedHasher::<S>::BulkStoreRange,
            (other, data, mask, start, (end + 1) as usize),
            (),
        ),
    ensures
        final(third)@ == final(other)@,
        same_settings(*final(other), *old(other)),
        start == end ==> final(one)@ == old(one)@,
{
}

/// A range that ends where it starts, or before, stores nothing.
pub proof fn law_store_no_range<S: TaggedHashSpecialization>(
    one: &mut TaggedHasher<S>,
    other: &mut TaggedHasher<S>,
    data: &[u8],
    mask: usize,
    start: usize,
    end: usize,
)
    requires
        start >= end,
        call_ensures(TaggedHasher::<S>::StoreRange, (one, data, mask, start, end), ()),
        call_ensures(TaggedHasher::<S>::BulkStoreRange, (other, data, mask, start, end), ()),
    ensures
        final(one)@ == old(one)@,
        same_settings(*final(one), *old(one)),
        final(other)@ == old(other)@,
        same_settings(*final(other), *old(other)),
{
}

/// Preparing a table that is not prepared empties every bucket that a position of the input falls into,
/// whether the whole table is emptied or not; and a table that is prepared is left alone. Only a short
/// input that comes whole spares the other buckets.
pub proof fn law_prepare<S: TaggedHashSpecialization>(
    hasher: &mut TaggedHasher<S>,
    one_shot: bool,
    input_size: usize,
    data: &[u8],
    how: HowPrepared,
    ix: int,
    key: int,
)
    requires
        0 <= ix < input_size,
        0 <= key < old(hasher).num@.len(),
        call_ensures(TaggedHasher::<S>::Prepare, (hasher, one_shot, input_size, data), how),
    ensures
        how == HowPrepared::ALREADY_PREPARED <==> old(hasher).common.is_prepared_ != 0,
        old(hasher).common.is_prepared_ != 0 ==> final(hasher).num@ == old(hasher).num@,
        old(hasher).common.is_prepared_ == 0 ==> {
            let hash = old(hasher).specialization.spec_hash(data@.skip(ix));
            &&& hash / 256 == key ==> final(hasher).num@[key] == 65535
            &&& final(hasher).num@[key] == 65535 || final(hasher).num@[key] == old(hasher).num@[key]
            &&& !one_shot || 64 * input_size > pow2(
                old(hasher).specialization.spec_bucket_bits() as nat,
            ) ==> final(hasher).num@[key] == 65535
            &&& final(hasher).common.is_prepared_ == 1
        },
        final(hasher).tags@ == old(hasher).tags@,
        final(hasher).buckets@ == old(hasher).buckets@,
        final(hasher).specialization == old(hasher).specialization,
        final(hasher).h9_opts == old(hasher).h9_opts,
        final(hasher).common.params == old(hasher).common.params,
        final(hasher).common.dict_num_lookups == old(hasher).common.dict_num_lookups,
        final(hasher).common.dict_num_matches == old(hasher).common.dict_num_matches,
{
    let before = *old(hasher);
    assert(final(hasher)@.num[key] == final(hasher).num@[key]);
    if before.specialization.spec_hash(data@.skip(ix)) / 256 == key {
        assert(before.reaches(data@, input_size as int, key));
    }
}

/// A short input that comes whole leaves the buckets alone that none of its positions falls into.
pub proof fn law_prepare_spares<S: TaggedHashSpecialization>(
    hasher: &mut TaggedHasher<S>,
    input_size: usize,
    data: &[u8],
    how: HowPrepared,
    key: int,
)
    requires
        0 <= key < old(hasher).num@.len(),
        old(hasher).common.is_prepared_ == 0,
        64 * input_size <= pow2(old(hasher).specialization.spec_bucket_bits() as nat),
        forall|ix: int|
            0 <= ix < input_size ==> #[trigger] old(hasher).specialization.spec_hash(data@.skip(ix))
                / 256 != key,
        call_ensures(TaggedHasher::<S>::Prepare, (hasher, true, input_size, data), how),
    ensures
        final(hasher).num@[key] == old(hasher).num@[key],
{
    let before = *old(hasher);
    assert(final(hasher)@.num[key] == final(hasher).num@[key]);
    assert(!before.reaches(data@, input_size as int, key));
}

/// At the start of a block, the last three positions of the block before it are stored, if there are so
/// many, and if with the new bytes they can be hashed. Else nothing is.
pub proof fn law_stitch<S: TaggedHashSpecialization>(
    hasher: &mut TaggedHasher<S>,
    other: &mut TaggedHasher<S>,
    num_bytes: usize,
    position: usize,
    ringbuffer: &[u8],
    mask: usize,
)
    requires
        *old(hasher) == *old(other),
        position >= 3,
        num_bytes < usize::MAX,
        call_ensures(
            TaggedHasher::<S>::StitchToPreviousBlock,
            (hasher, num_bytes, position, ringbuffer, mask),
            (),
        ),
        call_ensures(
            TaggedHasher::<S>::StoreRange,
            (other, ringbuffer, mask, (position - 3) as usize, position),
            (),
        ),
    ensures
        num_bytes + 1 >= old(hasher).specialization.spec_hash_type_length() ==> final(hasher)@
            == final(other)@,
        num_bytes + 1 < old(hasher).specialization.spec_hash_type_length() ==> final(hasher)@ == old(
            hasher,
        )@,
{
}

/// Where fewer than three positions come before a block, nothing is stored for them.
pub proof fn law_stitch_at_start<S: TaggedHashSpecialization>(
    hasher: &mut TaggedHasher<S>,
    num_bytes: usize,
    position: usize,
    ringbuffer: &[u8],
    mask: usize,
)
    requires
        position < 3,
        call_ensures(
            TaggedHasher::<S>::StitchToPreviousBlock,
            (hasher, num_bytes, position, ringbuffer, mask),
            (),
        ),
    ensures
        final(hasher)@ == old(hasher)@,
        same_settings(*final(hasher), *old(hasher)),
{
}

/// What a match finder tells of itself: its weights, how many bytes it hashes, and that so many must
/// follow a position. A copy is equal to it in all.
pub proof fn law_of_itself<S: TaggedHashSpecialization>(
    hasher: TaggedHasher<S>,
    opts: H9Opts,
    hashed: usize,
    lookahead: usize,
    copy: TaggedHasher<S>,
    sized: bool,
)
    requires
        call_ensures(TaggedHasher::<S>::Opts, (&hasher,), opts),
        call_ensures(TaggedHasher::<S>::HashTypeLength, (&hasher,), hashed),
        call_ensures(TaggedHasher::<S>::StoreLookahead, (&hasher,), lookahead),
        call_ensures(TaggedHasher::<S>::clone_with_alloc, (&hasher,), copy),
        call_ensures(TaggedHasher::<S>::is_sized, (&hasher,), sized),
    ensures
        opts == hasher.h9_opts,
        hashed == hasher.specialization.spec_hash_type_length(),
        lookahead == hashed,
        copy.num@ == hasher.num@ && copy.tags@ == hasher.tags@ && copy.buckets@ == hasher.buckets@,
        copy.common == hasher.common && copy.specialization == hasher.specialization,
        copy.h9_opts == hasher.h9_opts,
        sized <==> hasher.specialization.wf() && hasher.num@.len() == pow2(
            hasher.specialization.spec_bucket_bits() as nat,
        ) && hasher.buckets@.len() == hasher.num@.len() * pow2(
            hasher.specialization.spec_block_bits() as nat,
        ) && hasher.tags@.len() == hasher.buckets@.len(),
{
    if hasher.specialization.wf() {
        let some = Seq::new(hasher.specialization.spec_hash_type_length(), |i: int| 0u8);
        hasher.specialization.lemma_hash_in_range(some);
    }
}

/// A table fits if the bits of a bucket and of its slots together are fewer than a word has, and if a
/// four-byte hash has as many bits as name a bucket, next to the tag.
pub proof fn law_fits(four: H58Sub, five: H68Sub, four_fits: bool, five_fits: bool)
    requires
        call_ensures(H58Sub::fits, (&four,), four_fits),
        call_ensures(H68Sub::fits, (&five,), five_fits),
    ensures
        four_fits <==> four.bucket_bits + 8 <= 32 && four.bucket_bits + four.block_bits < usize::BITS,
        five_fits <==> 15 + five.block_bits < usize::BITS,
{
}

/// What every match finder has is a part of it, and what becomes of that part becomes of the whole.
pub proof fn law_common<S: TaggedHashSpecialization>(
    hasher: &mut TaggedHasher<S>,
    common: &mut Struct1,
)
    requires
        call_ensures(TaggedHasher::<S>::GetHasherCommon, (hasher,), common),
    ensures
        *old(common) == old(hasher).common,
        final(hasher).common == *final(common),
        final(hasher).specialization == old(hasher).specialization,
        final(hasher).h9_opts == old(hasher).h9_opts,
        final(hasher)@ == old(hasher)@,
{
}

/// Two tables are equal exactly if they have the same settings, counters, tags and positions, and two
/// ways of hashing if they have the same numbers of bits.
pub proof fn law_equal_tables(
    a: TaggedHasher<H58Sub>,
    b: TaggedHasher<H58Sub>,
    c: TaggedHasher<H68Sub>,
    d: TaggedHasher<H68Sub>,
)
    ensures
        a.eq_spec(&b) <==> a.common == b.common && a.specialization == b.specialization && a.num@
            == b.num@ && a.tags@ == b.tags@ && a.buckets@ == b.buckets@ && a.h9_opts == b.h9_opts,
        c.eq_spec(&d) <==> c.common == d.common && c.specialization == d.specialization && c.num@
            == d.num@ && c.tags@ == d.tags@ && c.buckets@ == d.buckets@ && c.h9_opts == d.h9_opts,
        a.specialization.eq_spec(&b.specialization) <==> a.specialization.block_bits
            == b.specialization.block_bits && a.specialization.bucket_bits
            == b.specialization.bucket_bits,
        c.specialization.eq_spec(&d.specialization) <==> c.specialization.block_bits
            == d.specialization.block_bits,
        TaggedHasher::<H58Sub>::obeys_eq_spec(),
        TaggedHasher::<H68Sub>::obeys_eq_spec(),
        H58Sub::obeys_eq_spec(),
        H68Sub::obeys_eq_spec(),
{
}

/// A match finder fills a distance cache with the neighbours of the last two distances as far as its
/// parameters ask for.
pub proof fn law_prepares_distances<S: TaggedHashSpecialization>(
    hasher: TaggedHasher<S>,
    cache: &mut [i32],
    same: &mut [i32],
)
    requires
        old(cache)@ == old(same)@,
        call_ensures(TaggedHasher::<S>::PrepareDistanceCache, (&hasher, cache), ()),
        call_ensures(
            adv_prepare_distance_cache,
            (same, hasher.common.params.num_last_distances_to_check),
            (),
        ),
    ensures
        final(cache)@ == final(same)@,
{
    assert(final(cache)@ =~= final(same)@) by {
        assert forall|i: int| 0 <= i < final(cache)@.len() implies final(cache)@[i]
            == final(same)@[i] by {
            assert(final(cache)@[i] as int == crate::backward_references::prepared_distance(
                old(cache)@,
                hasher.common.params.num_last_distances_to_check,
                i,
            ));
        }
    }
}

/// Bit `k` of a mask of tags stands for the slot `k` places behind the head, round the ring.
pub proof fn law_tag_mask(tag: u8, tags: &[u8], head: usize, matches: u64, k: int)
    requires
        0 < tags@.len() < 64,
        head < tags@.len(),
        0 <= k < 64,
        call_ensures(matching_tag_mask, (tag, tags, head), matches),
    ensures
        (matches >> (k as u64)) & 1 == 1 <==> k < tags@.len() && tags@[if head + k < tags@.len() {
            head + k
        } else {
            head + k - tags@.len()
        }] == tag,
{
    let n = tags@.len() as int;
    assert(crate::vectorization::bit(matches, k) <==> k < n && tags@[(head + k) % n] == tag);
    if k < n {
        if head + k < n {
            vstd::arithmetic::div_mod::lemma_small_mod((head + k) as nat, n as nat);
        } else {
            vstd::arithmetic::div_mod::lemma_mod_add_multiples_vanish(head + k - n, n);
            vstd::arithmetic::div_mod::lemma_small_mod((head + k - n) as nat, n as nat);
            assert(n + (head + k - n) == head + k);
        }
    }
}

/// `table` after positions with their tags were put into bucket `key`, one after the other.
pub open spec fn put_all(table: TableView, key: int, items: Seq<(u32, u8)>, size: int) -> TableView
    decreases items.len(),
{
    if items.len() == 0 {
        table
    } else {
        put_all(table, key, items.drop_last(), size).put(
            key,
            items.last().1,
            items.last().0 as usize,
            size,
        )
    }
}

/// A bucket shows what was put into it, the newest first, and as many as it has slots.
pub proof fn law_bucket_shows_newest(
    table: TableView,
    key: int,
    items: Seq<(u32, u8)>,
    size: int,
)
    requires
        table.shaped(size),
        0 <= key < table.num.len(),
        table.num[key] == 65535,
        items.len() < 65535,
    ensures
        put_all(table, key, items, size).shaped(size),
        put_all(table, key, items, size).num.len() == table.num.len(),
        put_all(table, key, items, size).num[key] == 65535 - items.len(),
        ({
            let seen = put_all(table, key, items, size).entries(key, size);
            &&& seen.len() == if items.len() < size {
                items.len() as int
            } else {
                size
            }
            &&& forall|k: int|
                0 <= k < seen.len() ==> #[trigger] seen[k] == items[items.len() - 1 - k]
        }),
    decreases items.len(),
{
    if items.len() == 0 {
        table.lemma_fresh_bucket(key, size);
    } else {
        let rest = items.drop_last();
        law_bucket_shows_newest(table, key, rest, size);
        let before = put_all(table, key, rest, size);
        let (ix, tag) = items.last();
        before.lemma_put_comes_first(key, tag, ix as usize, size);
        assert((ix as usize) as u32 == ix);
        let seen = put_all(table, key, items, size).entries(key, size);
        let old_seen = before.entries(key, size);
        assert forall|k: int| 0 <= k < seen.len() implies #[trigger] seen[k] == items[items.len() - 1
            - k] by {
            if k > 0 {
                assert(seen[k] == old_seen[k - 1]);
                assert(old_seen[k - 1] == rest[rest.len() - 1 - (k - 1)]);
            }
        }
    }
}

/// A search of a bucket sees as many entries as went into it since its counter last stood at its start,
/// up to as many as it has slots: those in the slots behind the counter, in order.
pub proof fn law_entries(table: TableView, key: int, size: int, k: int)
    requires
        0 <= key < table.num.len(),
        size > 0,
    ensures
        table.entries(key, size).len() == if 65535 - table.num[key] < size {
            65535 - table.num[key]
        } else {
            size
        },
        0 <= k < table.entries(key, size).len() ==> ({
            let slot = key * size + (table.num[key] + 1 + k) % size;
            &&& table.entries(key, size)[k].0 == table.buckets[slot]
            &&& table.entries(key, size)[k].1 == table.tags[slot]
        }),
{
}

} // verus!
