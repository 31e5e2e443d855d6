use simd_brotli::backward_references::search::{SearchContext, SearchState};
use simd_brotli::backward_references::tagged::{
    matching_tag_mask, H58Sub, H68Sub, Searched, TaggedHashSpecialization, TaggedHasher,
};
use simd_brotli::backward_references::{
    fix_unbroken_len, BackwardReferencePenaltyUsingLastDistance, BackwardReferenceScore,
    BackwardReferenceScoreUsingLastDistance, BrotliHasherParams, H9Opts, HasherSearchResult,
    HowPrepared,
};
use simd_brotli::static_dict::{
    FindMatchLengthWithLimit, BROTLI_UNALIGNED_LOAD32, BROTLI_UNALIGNED_LOAD64,
};

fn params(num_last_distances_to_check: i32) -> BrotliHasherParams {
    BrotliHasherParams {
        type_: 58,
        bucket_bits: 8,
        block_bits: 4,
        hash_len: 4,
        num_last_distances_to_check,
        literal_byte_score: 0,
    }
}

fn h58(block_bits: u32) -> H58Sub {
    H58Sub { block_bits, bucket_bits: 8 }
}

fn nothing() -> HasherSearchResult {
    HasherSearchResult { len: 0, len_x_code: 3, distance: 77, score: 2020 }
}

/// A buffer of 64 bytes, with eight bytes behind it so that every position can be hashed.
fn buffer(text: &[u8]) -> Vec<u8> {
    let mut data = vec![0u8; 72];
    data[..text.len()].copy_from_slice(text);
    data
}

#[test]
fn matching_tag_mask_rotates_newest_candidate_to_bit_zero() {
    let mut tags = [0u8; 32];
    tags[3] = 7;
    tags[17] = 7;
    assert_eq!(matching_tag_mask(7, &tags, 3), 1 | (1 << 14));
}

#[test]
fn tag_masks_of_every_width() {
    for n in 1..64usize {
        let tags: Vec<u8> = (0..n).map(|i| (i % 3) as u8).collect();
        for head in 0..n {
            let mut expected = 0u64;
            for k in 0..n {
                if tags[(head + k) % n] == 1 {
                    expected |= 1 << k;
                }
            }
            assert_eq!(matching_tag_mask(1, &tags, head), expected);
        }
    }
}

#[test]
fn sixteen_tags_are_compared_at_once() {
    let mut tags = [9u8; 16];
    tags[0] = 1;
    tags[15] = 1;
    assert_eq!(matching_tag_mask(1, &tags, 15), 0b11);
    assert_eq!(matching_tag_mask(9, &tags, 0), 0x7ffe);
}

#[test]
fn loads_are_little_endian() {
    let data = [1u8, 2, 3, 4, 5, 6, 7, 8, 9];
    assert_eq!(BROTLI_UNALIGNED_LOAD32(&data), 0x0403_0201);
    assert_eq!(BROTLI_UNALIGNED_LOAD64(&data), 0x0807_0605_0403_0201);
}

#[test]
fn match_length_stops_at_limit_end_and_difference() {
    assert_eq!(FindMatchLengthWithLimit(b"abcdefgh", b"abcdefgh", 5), 5);
    assert_eq!(FindMatchLengthWithLimit(b"abcdxfgh", b"abcdefgh", 8), 4);
    assert_eq!(FindMatchLengthWithLimit(b"abc", b"abcdefgh", 8), 3);
    assert_eq!(FindMatchLengthWithLimit(b"xbc", b"abc", 8), 0);
}

#[test]
fn hashes_of_four_and_of_five_bytes() {
    assert_eq!(h58(4).hash(b"abcd"), 44705);
    assert_eq!(H68Sub { block_bits: 4 }.hash(b"abcdefgh"), 513872);
    // Only five of the eight bytes count.
    assert_eq!(H68Sub { block_bits: 4 }.hash(b"abcdeXYZ"), 513872);
    assert_ne!(H68Sub { block_bits: 4 }.hash(b"abcdXfgh"), 513872);
}

#[test]
fn sizes_follow_the_bits() {
    assert_eq!(h58(4).block_size(), 16);
    assert_eq!(h58(4).block_mask(), 15);
    assert_eq!(h58(4).bucket_size(), 256);
    assert_eq!(H68Sub { block_bits: 5 }.bucket_size(), 1 << 15);
    assert_eq!(h58(4).hash_type_length(), 4);
    assert_eq!(H68Sub { block_bits: 5 }.hash_type_length(), 8);
    assert!(!h58(4).compare_from_four());
    assert!(H68Sub { block_bits: 5 }.compare_from_four());
}

#[test]
fn a_new_table_is_empty_and_prepared() {
    let hasher = TaggedHasher::new(&params(4), h58(4));
    assert_eq!(hasher.num, vec![u16::MAX; 256]);
    assert_eq!(hasher.tags, vec![0u8; 4096]);
    assert_eq!(hasher.buckets, vec![0u32; 4096]);
    assert_eq!(hasher.common.is_prepared_, 1);
    assert_eq!(hasher.Opts(), H9Opts { literal_byte_score: 540 });
    assert_eq!(hasher.HashTypeLength(), 4);
    assert_eq!(hasher.StoreLookahead(), 4);
}

#[test]
fn tables_are_as_large_as_their_bits_say() {
    assert!(h58(4).fits());
    assert!(!H58Sub { block_bits: 4, bucket_bits: 25 }.fits());
    assert!(!h58(usize::BITS - 8).fits());
    assert!(H68Sub { block_bits: 5 }.fits());
    assert!(!H68Sub { block_bits: u32::MAX }.fits());
    let new = || TaggedHasher::new(&params(4), h58(4));
    assert!(new().is_sized());
    let mut hasher = new();
    hasher.num.pop();
    assert!(!hasher.is_sized());
    let mut hasher = new();
    hasher.tags.push(0);
    assert!(!hasher.is_sized());
    let mut hasher = new();
    hasher.buckets.clear();
    assert!(!hasher.is_sized());
    let mut hasher = new();
    hasher.specialization.bucket_bits = 40;
    assert!(!hasher.is_sized());
}

#[test]
fn a_search_stores_its_position_as_storing_does() {
    let data = buffer(b"abcdefgh abcdefgh abcd xyz xyz abcdefgh");
    let mut searched = TaggedHasher::new(&params(4), h58(2));
    let mut stored = TaggedHasher::new(&params(4), h58(2));
    let mut found = [0, 0];
    for ix in 0..60 {
        let mut out = nothing();
        let result = searched.find_longest_match_simd(
            false, &data, 63, None, &[4, 11, 15, 16], ix, 10, 40, 0, 2000, &mut out,
        );
        found[(result == Searched::Found) as usize] += 1;
        stored.Store(&data, 63, ix);
        assert!(searched == stored);
    }
    assert!(found[0] > 0 && found[1] > 0);
}

#[test]
fn storing_writes_the_slot_that_the_counter_names() {
    let mut hasher = TaggedHasher::new(&params(4), h58(4));
    hasher.Store(b"abcdabcd", 7, 4);
    let key = 44705 / 256;
    let tag = (44705 % 256) as u8;
    assert_eq!(hasher.HashBytes(b"abcd"), key);
    assert_eq!(hasher.num[key], u16::MAX - 1);
    assert_eq!(hasher.buckets[key * 16 + 15], 4);
    assert_eq!(hasher.tags[key * 16 + 15], tag);
    hasher.Store(b"abcdabcd", 7, 8);
    assert_eq!(hasher.buckets[key * 16 + 14], 8);
}

#[test]
fn storing_a_range_is_storing_one_by_one() {
    let data = buffer(b"the quick brown fox jumps over the lazy dog");
    let mut one = TaggedHasher::new(&params(4), h58(4));
    let mut other = TaggedHasher::new(&params(4), h58(4));
    let mut third = TaggedHasher::new(&params(4), h58(4));
    one.StoreRange(&data, 63, 3, 30);
    other.BulkStoreRange(&data, 63, 3, 17);
    other.BulkStoreRange(&data, 63, 17, 30);
    for ix in 3..30 {
        third.Store(&data, 63, ix);
    }
    assert!(one == other);
    assert!(one == third);
    third.Store(&data, 63, 30);
    assert!(one != third);
}

#[test]
fn stitching_stores_the_three_positions_before() {
    let data = buffer(b"the quick brown fox jumps over the lazy dog");
    let mut one = TaggedHasher::new(&params(4), h58(4));
    let mut other = TaggedHasher::new(&params(4), h58(4));
    one.StitchToPreviousBlock(3, 20, &data, 63);
    other.StoreRange(&data, 63, 17, 20);
    assert!(one == other);
    let before = one.clone_with_alloc();
    one.StitchToPreviousBlock(2, 20, &data, 63);
    one.StitchToPreviousBlock(9, 2, &data, 63);
    assert!(one == before);
}

#[test]
fn preparing_twice_does_nothing_the_second_time() {
    let data = buffer(b"the quick brown fox jumps over the lazy dog");
    let mut hasher = TaggedHasher::new(&params(4), h58(4));
    hasher.StoreRange(&data, 63, 0, 30);
    let before = hasher.clone_with_alloc();
    assert_eq!(hasher.Prepare(false, 64, &data), HowPrepared::ALREADY_PREPARED);
    assert!(hasher == before);
    hasher.GetHasherCommon().is_prepared_ = 0;
    assert!(hasher != before);
    assert_eq!(hasher.Prepare(false, 64, &data), HowPrepared::NEWLY_PREPARED);
    assert_eq!(hasher.num, vec![u16::MAX; 256]);
    assert_eq!(hasher.buckets, before.buckets);
    let prepared = hasher.clone_with_alloc();
    assert_eq!(hasher.Prepare(true, 2, &data), HowPrepared::ALREADY_PREPARED);
    assert!(hasher == prepared);
}

#[test]
fn preparing_for_a_short_input_empties_the_buckets_it_reaches() {
    let data = buffer(b"the quick brown fox jumps over the lazy dog");
    let mut hasher = TaggedHasher::new(&params(4), h58(4));
    hasher.StoreRange(&data, 63, 0, 30);
    hasher.GetHasherCommon().is_prepared_ = 0;
    let before = hasher.num.clone();
    // A sixty-fourth of the table is four positions.
    assert_eq!(hasher.Prepare(true, 4, &data), HowPrepared::NEWLY_PREPARED);
    let reached: Vec<usize> = (0..4).map(|ix| hasher.HashBytes(&data[ix..])).collect();
    for key in 0..256 {
        let expected = if reached.contains(&key) { u16::MAX } else { before[key] };
        assert_eq!(hasher.num[key], expected);
    }
    hasher.GetHasherCommon().is_prepared_ = 0;
    assert_eq!(hasher.Prepare(true, 5, &data), HowPrepared::NEWLY_PREPARED);
    assert_eq!(hasher.num, vec![u16::MAX; 256]);
}

#[test]
fn distance_cache_gets_the_neighbours_of_the_last_two() {
    let mut cache = [10, 20, 30, 40, 0, 0, 0, 0, 0, 0, 0, 0, 0, 0, 0, 0];
    TaggedHasher::new(&params(16), h58(4)).PrepareDistanceCache(&mut cache);
    assert_eq!(cache, [10, 20, 30, 40, 9, 11, 8, 12, 7, 13, 19, 21, 18, 22, 17, 23]);
    let mut short = [10, 20, 30, 40, 0, 0, 0, 0, 0, 0, 0];
    TaggedHasher::new(&params(10), h58(4)).PrepareDistanceCache(&mut short);
    assert_eq!(short, [10, 20, 30, 40, 9, 11, 8, 12, 7, 13, 0]);
    let mut untouched = [10, 20, 30, 40];
    TaggedHasher::new(&params(4), h58(4)).PrepareDistanceCache(&mut untouched);
    assert_eq!(untouched, [10, 20, 30, 40]);
}

#[test]
fn scores() {
    let opts = H9Opts { literal_byte_score: 540 };
    assert_eq!(BackwardReferenceScore(6, 20, opts), 1920 + 810 - 30 * 4);
    assert_eq!(BackwardReferenceScoreUsingLastDistance(6, opts), 135 * 6 + 1935);
    assert_eq!(BackwardReferencePenaltyUsingLastDistance(1), 39);
    assert_eq!(BackwardReferencePenaltyUsingLastDistance(4), 39);
    assert_eq!(BackwardReferencePenaltyUsingLastDistance(6), 39 + 8);
    assert_eq!(H9Opts::new(&params(4)), opts);
    let weighted = BrotliHasherParams { literal_byte_score: 340, ..params(4) };
    assert_eq!(H9Opts::new(&weighted), H9Opts { literal_byte_score: 340 });
}

#[test]
fn matches_end_at_the_break() {
    assert_eq!(fix_unbroken_len(8, 10, None), 8);
    assert_eq!(fix_unbroken_len(8, 10, Some(14)), 4);
    assert_eq!(fix_unbroken_len(8, 10, Some(18)), 8);
    assert_eq!(fix_unbroken_len(8, 10, Some(10)), 8);
}

#[test]
fn a_bucket_candidate_is_found() {
    let data = buffer(b"abcdefgh-123-abcdefgh-456");
    let mut hasher = TaggedHasher::new(&params(4), h58(4));
    hasher.StoreRange(&data, 63, 0, 13);
    let mut out = nothing();
    let searched = hasher.find_longest_match_simd(
        true, &data, 63, None, &[1, 2, 3, 4], 13, 12, 1000, 0, 2000, &mut out,
    );
    assert_eq!(searched, Searched::Found);
    assert_eq!(
        out,
        HasherSearchResult {
            len: 9,
            len_x_code: 0,
            distance: 13,
            score: 1920 + 540 * 9 / 4 - 30 * 3
        }
    );
    // The position itself is stored on the way.
    let mut expected = TaggedHasher::new(&params(4), h58(4));
    expected.StoreRange(&data, 63, 0, 14);
    assert!(hasher == expected);
}

#[test]
fn eight_byte_hashes_find_the_same_match() {
    let data = buffer(b"abcdefgh-123-abcdefgh-456");
    let specialization = H68Sub { block_bits: 5 };
    let mut hasher = TaggedHasher::new(&params(4), specialization);
    hasher.StoreRange(&data, 63, 0, 13);
    let mut out = nothing();
    let searched = hasher.find_longest_match_simd(
        false, &data, 63, None, &[1, 2, 3, 4], 13, 12, 1000, 0, 2000, &mut out,
    );
    assert_eq!(searched, Searched::Found);
    assert_eq!((out.len, out.distance), (9, 13));
}

#[test]
fn a_ring_buffer_that_is_not_full_yet_can_be_searched() {
    let data = b"abcdefgh-123-abcdefgh-456";
    for mask in [0xffff, usize::MAX] {
        for cache in [[1, 2, 3, 4], [13, 2, 3, 4]] {
            let mut hasher = TaggedHasher::new(&params(4), h58(4));
            hasher.StoreRange(data, mask, 0, 13);
            let mut out = nothing();
            let searched = hasher.find_longest_match_simd(
                true, data, mask, None, &cache, 13, 12, 13, 0, 2000, &mut out,
            );
            assert_eq!(searched, Searched::Found);
            assert_eq!((out.len, out.distance), (9, 13));
        }
    }
}

#[test]
fn tables_differ_where_their_settings_do() {
    let table = TaggedHasher::new(&params(4), h58(4));
    assert!(table == TaggedHasher::new(&params(4), h58(4)));
    assert!(table != TaggedHasher::new(&params(5), h58(4)));
    let mut other = TaggedHasher::new(&params(4), h58(4));
    other.specialization.block_bits = 5;
    assert!(table != other);
    let table = TaggedHasher::new(&params(4), H68Sub { block_bits: 1 });
    assert!(table == table.clone_with_alloc());
    assert!(table != TaggedHasher::new(&params(4), H68Sub { block_bits: 2 }));
}

#[test]
fn a_recent_distance_beats_a_bucket_candidate() {
    let data = buffer(b"abcdefgh-123-abcdefgh-456");
    let mut hasher = TaggedHasher::new(&params(4), h58(4));
    hasher.StoreRange(&data, 63, 0, 13);
    let mut out = nothing();
    let searched = hasher.find_longest_match_simd(
        true, &data, 63, None, &[5, 13, 3, 4], 13, 12, 1000, 0, 2000, &mut out,
    );
    assert_eq!(searched, Searched::Found);
    assert_eq!((out.len, out.distance), (9, 13));
    assert_eq!(out.score, 135 * 9 + 1935 - 39);
}

#[test]
fn short_matches_count_only_at_the_last_two_distances() {
    let data = buffer(b"ab-ab+");
    for (cache, found) in [
        ([3, 9, 9, 9], true),
        ([9, 3, 9, 9], true),
        ([9, 9, 3, 9], false),
    ] {
        let mut hasher = TaggedHasher::new(&params(4), h58(4));
        let mut out = nothing();
        let searched = hasher.find_longest_match_simd(
            false, &data, 63, None, &cache, 3, 12, 1000, 0, 2000, &mut out,
        );
        assert_eq!(searched == Searched::Found, found);
        assert_eq!(out.len, if found { 2 } else { 0 });
    }
}

#[test]
fn the_newest_of_equal_candidates_stays() {
    let data = buffer(b"abcdef1.abcdef2.abcdef3.abcdef4.");
    let mut hasher = TaggedHasher::new(&params(0), h58(4));
    hasher.StoreRange(&data, 63, 0, 24);
    let mut out = nothing();
    let searched = hasher.find_longest_match_simd(
        false, &data, 63, None, &[], 24, 20, 1000, 0, 2000, &mut out,
    );
    assert_eq!(searched, Searched::Found);
    assert_eq!((out.len, out.distance), (6, 8));
}

#[test]
fn a_candidate_too_far_back_ends_the_search() {
    let data = buffer(b"abcdefgh-123-abcdefgh-456");
    let mut hasher = TaggedHasher::new(&params(0), h58(4));
    hasher.StoreRange(&data, 63, 0, 13);
    let mut out = nothing();
    let searched = hasher.find_longest_match_simd(
        false, &data, 63, None, &[], 13, 12, 12, 0, 2000, &mut out,
    );
    assert_eq!(searched, Searched::NotFound);
    assert_eq!(out, HasherSearchResult { len: 0, len_x_code: 0, distance: 77, score: 2020 });
}

#[test]
fn the_dictionary_is_asked_only_where_nothing_is_found() {
    let data = buffer(b"nothing repeats");
    for has_dictionary in [false, true] {
        let mut hasher = TaggedHasher::new(&params(4), h58(4));
        hasher.StoreRange(&data, 63, 0, 5);
        let mut out = nothing();
        let searched = hasher.find_longest_match_simd(
            has_dictionary, &data, 63, None, &[1, 2, 3, 4], 5, 8, 1000, 30, 2000, &mut out,
        );
        let expected = if has_dictionary {
            Searched::AskDictionary { max_backward: 1030, max_distance: 2000 }
        } else {
            Searched::NotFound
        };
        assert_eq!(searched, expected);
        assert_eq!(out.score, 2020);
    }
}

#[test]
fn matches_are_cut_at_the_break() {
    let data = buffer(b"abcdefgh-123-abcdefgh-456");
    let mut hasher = TaggedHasher::new(&params(0), h58(4));
    hasher.StoreRange(&data, 63, 0, 13);
    let mut out = nothing();
    hasher.find_longest_match_simd(
        false, &data, 63, Some(5), &[], 13, 12, 1000, 0, 2000, &mut out,
    );
    assert_eq!((out.len, out.distance), (5, 13));
}

#[test]
fn a_full_bucket_forgets_the_oldest() {
    // Blocks of two slots: of three occurrences only the last two can be found.
    let data = buffer(b"abcdef1.abcdxx2.abcdxx3.abcdef4.");
    let mut small = TaggedHasher::new(&params(0), h58(1));
    small.StoreRange(&data, 63, 0, 24);
    let mut out = nothing();
    small.find_longest_match_simd(false, &data, 63, None, &[], 24, 20, 1000, 0, 2000, &mut out);
    assert_eq!((out.len, out.distance), (4, 8));
    let mut large = TaggedHasher::new(&params(0), h58(2));
    large.StoreRange(&data, 63, 0, 24);
    let mut out = nothing();
    large.find_longest_match_simd(false, &data, 63, None, &[], 24, 20, 1000, 0, 2000, &mut out);
    assert_eq!((out.len, out.distance), (6, 24));
}

#[test]
fn what_a_search_finds_is_a_match() {
    let mut data = vec![0u8; 72];
    let mut seed = 1u32;
    for byte in data.iter_mut() {
        seed = seed.wrapping_mul(1103515245).wrapping_add(12345);
        *byte = b'a' + ((seed >> 16) % 3) as u8;
    }
    let mut hasher = TaggedHasher::new(&params(4), h58(4));
    for ix in 0..56usize {
        let mut out = nothing();
        let searched = hasher.find_longest_match_simd(
            false, &data, 63, None, &[4, 11, 15, 16], ix, 10, 40, 0, 2000, &mut out,
        );
        if searched == Searched::Found {
            assert!(1 <= out.distance && out.distance <= 40 && out.distance <= ix && out.len <= 10);
            assert!(out.score > 2020);
            let start = ix - out.distance;
            assert_eq!(data[start..start + out.len], data[ix..ix + out.len]);
        } else {
            assert_eq!(out.score, 2020);
        }
    }
}

#[test]
fn a_search_can_be_made_step_by_step() {
    let data = buffer(b"abcdefgh-123-abcdefgh-456");
    let context = SearchContext {
        data: &data,
        ring_buffer_mask: 63,
        ring_buffer_break: None,
        cur_ix: 13,
        max_length: 12,
        max_backward: 1000,
        opts: H9Opts { literal_byte_score: 540 },
    };
    let start = SearchState::start(nothing());
    assert_eq!(start.best_score, 2020);
    assert_eq!(context.try_recent(-1, 0, start), start);
    assert_eq!(context.try_recent(14, 0, start), start);
    let state = context.try_recent(13, 0, start);
    assert!(state.found);
    assert_eq!(state.best_len, 9);
    let state = start.for_bucket();
    assert_eq!(state.best_len, 3);
    assert_eq!(context.try_candidate(0, false, state), context.try_candidate(0, true, state));
    assert_eq!(context.try_candidate(1, false, state), Some(state));
    let far = SearchContext { max_backward: 12, ..context };
    assert_eq!(far.try_candidate(0, false, state), None);
}
