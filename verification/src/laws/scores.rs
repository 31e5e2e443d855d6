//! Laws of scores, of the distance cache and of the loads that matches are found by.
use crate::backward_references::{
    adv_prepare_distance_cache, fix_unbroken_len, log2_floor, BackwardReferencePenaltyUsingLastDistance,
    BackwardReferenceScore, BackwardReferenceScoreUsingLastDistance, BrotliHasherParams, H9Opts,
};
use crate::static_dict::{
    FindMatchLengthWithLimit, BROTLI_UNALIGNED_LOAD32, BROTLI_UNALIGNED_LOAD64,
};
use vstd::arithmetic::power2::pow2;
use vstd::prelude::*;

verus! {

proof fn lemma_highest_bit(v: u64, k: nat)
    requires
        pow2(k) <= v < pow2(k + 1),
    ensures
        k < 64,
        vstd::std_specs::bits::u64_leading_zeros(v) == 63 - k,
    decreases v,
{
    reveal(vstd::std_specs::bits::u64_leading_zeros);
    vstd::arithmetic::power2::lemma_pow2_unfold(k + 1);
    vstd::arithmetic::power2::lemma_pow2_pos(k);
    if k == 0 {
        vstd::arithmetic::power2::lemma2_to64();
        assert(v == 1);
        assert(v / 2 == 0);
        assert(vstd::std_specs::bits::u64_leading_zeros(0) == 64);
    } else {
        vstd::arithmetic::power2::lemma_pow2_unfold(k);
        lemma_highest_bit(v / 2, (k - 1) as nat);
        if k >= 64 {
            vstd::arithmetic::power2::lemma2_to64_rest();
            if k > 64 {
                vstd::arithmetic::power2::lemma_pow2_strictly_increases(64, k);
            }
        }
    }
}

proof fn lemma_log2_floor(v: u64, k: nat)
    requires
        pow2(k) <= v < pow2(k + 1),
    ensures
        log2_floor(v) == k,
        k < 64,
{
    lemma_highest_bit(v, k);
    let lz = (63 - k) as u32;
    assert(63u32 ^ lz == 63 - lz) by (bit_vector)
        requires
            lz <= 63,
    ;
}

/// A match scores a quarter of the literal score for each byte, from nineteen hundred and twenty on, and
/// loses thirty for each doubling of its distance. Of a product that is too large for a word, what does
/// not fit is lost.
pub proof fn law_score(len: usize, distance: usize, opts: H9Opts, k: nat, score: u64)
    requires
        pow2(k) <= distance < pow2(k + 1),
        call_ensures(BackwardReferenceScore, (len, distance, opts), score),
    ensures
        score == 1920 + ((opts.literal_byte_score * len) % 0x1_0000_0000_0000_0000) / 4 - 30 * k,
        opts.literal_byte_score * len < 0x1_0000_0000_0000_0000 ==> score == 1920 + (
        opts.literal_byte_score * len) / 4 - 30 * k,
{
    lemma_log2_floor(distance as u64, k);
    let all = opts.literal_byte_score * len;
    assert(all >= 0) by (nonlinear_arith)
        requires
            all == opts.literal_byte_score * len,
    ;
    let product = (all % 0x1_0000_0000_0000_0000) as u64;
    assert(product >> 2 == product / 4) by (bit_vector);
    assert((opts.literal_byte_score as u64).wrapping_mul(len as u64) == product);
    if all < 0x1_0000_0000_0000_0000 {
        vstd::arithmetic::div_mod::lemma_small_mod(all as nat, 0x1_0000_0000_0000_0000);
    }
}

/// Of two matches the longer one never scores less at the same distance, nor the nearer one at the same
/// length.
pub proof fn law_score_prefers_longer_and_nearer(
    len: usize,
    distance: usize,
    other_len: usize,
    other_distance: usize,
    opts: H9Opts,
    k: nat,
    other_k: nat,
    score: u64,
    other_score: u64,
)
    requires
        len >= other_len,
        distance <= other_distance,
        pow2(k) <= distance < pow2(k + 1),
        pow2(other_k) <= other_distance < pow2(other_k + 1),
        opts.literal_byte_score * len < 0x1_0000_0000_0000_0000,
        call_ensures(BackwardReferenceScore, (len, distance, opts), score),
        call_ensures(BackwardReferenceScore, (other_len, other_distance, opts), other_score),
    ensures
        score >= other_score,
{
    assert(opts.literal_byte_score * other_len <= opts.literal_byte_score * len) by (nonlinear_arith)
        requires
            other_len <= len,
    ;
    if k > other_k {
        if k > other_k + 1 {
            vstd::arithmetic::power2::lemma_pow2_strictly_increases(other_k + 1, k);
        }
    }
    law_score(len, distance, opts, k, score);
    law_score(other_len, other_distance, opts, other_k, other_score);
}

/// A match at the last distance scores a quarter of the literal score, rounded down, for each byte, from
/// nineteen hundred and thirty-five on. Of a sum that is too large for a word, what does not fit is lost.
pub proof fn law_last_distance_score(len: usize, opts: H9Opts, score: u64)
    requires
        call_ensures(BackwardReferenceScoreUsingLastDistance, (len, opts), score),
    ensures
        score == ((opts.literal_byte_score / 4) * len + 1935) % 0x1_0000_0000_0000_0000,
{
    let weight = opts.literal_byte_score as u64;
    assert(weight >> 2 == weight / 4) by (bit_vector);
    let product = (opts.literal_byte_score / 4) * len;
    assert(0 <= product) by (nonlinear_arith)
        requires
            product == (opts.literal_byte_score / 4) * len,
    ;
    assert((weight / 4).wrapping_mul(len as u64) == product % 0x1_0000_0000_0000_0000);
}

/// What naming a recent distance costs: neighbours in pairs cost the same.
pub proof fn law_last_distance_penalty(code: usize, penalty: u64)
    requires
        call_ensures(BackwardReferencePenaltyUsingLastDistance, (code,), penalty),
    ensures
        (code % 16) / 2 == 0 ==> penalty == 39,
        (code % 16) / 2 == 1 ==> penalty == 43,
        (code % 16) / 2 == 2 ==> penalty == 39,
        (code % 16) / 2 == 3 ==> penalty == 47,
        (code % 16) / 2 == 4 ==> penalty == 49,
        (code % 16) / 2 == 5 ==> penalty == 41,
        (code % 16) / 2 == 6 ==> penalty == 51,
        (code % 16) / 2 == 7 ==> penalty == 45,
{
    let c = code as u64;
    let shift = c & 0x0e;
    assert(shift == 2 * ((c % 16) / 2)) by (bit_vector)
        requires
            shift == c & 0x0e,
    ;
    assert((0x0001_ca10u64 >> 0u64) & 0x0e == 0 && (0x0001_ca10u64 >> 2u64) & 0x0e == 4 && (
    0x0001_ca10u64 >> 4u64) & 0x0e == 0 && (0x0001_ca10u64 >> 6u64) & 0x0e == 8 && (0x0001_ca10u64
        >> 8u64) & 0x0e == 10 && (0x0001_ca10u64 >> 10u64) & 0x0e == 2 && (0x0001_ca10u64 >> 12u64)
        & 0x0e == 12 && (0x0001_ca10u64 >> 14u64) & 0x0e == 6) by (bit_vector);
}

/// The literal score is the one that was asked for, or five hundred and forty where none was.
pub proof fn law_literal_score(params: BrotliHasherParams, opts: H9Opts)
    requires
        call_ensures(H9Opts::new, (&params,), opts),
    ensures
        params.literal_byte_score == 0 ==> opts.literal_byte_score == 540,
        params.literal_byte_score != 0 ==> opts.literal_byte_score == params.literal_byte_score,
{
}

/// A match is cut only where it would run over the break, and then it ends right before it.
pub proof fn law_unbroken(len: usize, prev_ix: usize, ring_buffer_break: Option<usize>, cut: usize)
    requires
        prev_ix + len <= usize::MAX,
        call_ensures(fix_unbroken_len, (len, prev_ix, ring_buffer_break), cut),
    ensures
        cut <= len,
        ring_buffer_break is None ==> cut == len,
        ring_buffer_break matches Some(at) ==> {
            &&& prev_ix < at ==> prev_ix + cut <= at
            &&& cut < len ==> prev_ix < at && prev_ix + cut == at
        },
{
}

/// The distance cache gets the neighbours of the last distance behind the four distances that it holds,
/// and those of the one before it behind these, as far as they are asked for. The four stay.
pub proof fn law_distance_cache(cache: &mut [i32], num_distances: i32)
    requires
        num_distances > 4 ==> old(cache)@.len() >= 10,
        num_distances > 10 ==> old(cache)@.len() >= 16,
        call_ensures(adv_prepare_distance_cache, (cache, num_distances), ()),
    ensures
        final(cache)@.len() == old(cache)@.len(),
        forall|i: int|
            0 <= i < 4 && i < old(cache)@.len() ==> #[trigger] final(cache)@[i] == old(cache)@[i],
        num_distances > 4 ==> {
            let last = old(cache)@[0];
            &&& final(cache)@[4] == last - 1 && final(cache)@[5] == last + 1
            &&& final(cache)@[6] == last - 2 && final(cache)@[7] == last + 2
            &&& final(cache)@[8] == last - 3 && final(cache)@[9] == last + 3
        },
        num_distances > 10 ==> {
            let next_last = old(cache)@[1];
            &&& final(cache)@[10] == next_last - 1 && final(cache)@[11] == next_last + 1
            &&& final(cache)@[12] == next_last - 2 && final(cache)@[13] == next_last + 2
            &&& final(cache)@[14] == next_last - 3 && final(cache)@[15] == next_last + 3
        },
        num_distances <= 10 ==> forall|i: int|
            10 <= i < old(cache)@.len() ==> #[trigger] final(cache)@[i] == old(cache)@[i],
        num_distances <= 4 ==> final(cache)@ == old(cache)@,
        forall|i: int|
            16 <= i < old(cache)@.len() ==> #[trigger] final(cache)@[i] == old(cache)@[i],
{
    assert forall|i: int| 0 <= i < old(cache)@.len() implies #[trigger] final(cache)@[i]
        == crate::backward_references::prepared_distance(old(cache)@, num_distances, i) by {}
    if num_distances <= 4 {
        assert(final(cache)@ =~= old(cache)@);
    }
}

/// Four bytes are loaded with the first as the lowest: byte `i` can be had back by dividing.
pub proof fn law_load32(data: &[u8], value: u32)
    requires
        data@.len() >= 4,
        call_ensures(BROTLI_UNALIGNED_LOAD32, (data,), value),
    ensures
        value % 256 == data@[0],
        (value / 0x100) % 256 == data@[1],
        (value / 0x1_0000) % 256 == data@[2],
        value / 0x100_0000 == data@[3],
{
}

/// Eight bytes are loaded with the first four as the lower half.
pub proof fn law_load64(data: &[u8], value: u64)
    requires
        data@.len() >= 8,
        call_ensures(BROTLI_UNALIGNED_LOAD64, (data,), value),
    ensures
        value % 0x1_0000_0000 == data@[0] + 0x100 * data@[1] + 0x1_0000 * data@[2] + 0x100_0000
            * data@[3],
        value / 0x1_0000_0000 == data@[4] + 0x100 * data@[5] + 0x1_0000 * data@[6] + 0x100_0000
            * data@[7],
{
    assert(data@.skip(4)[0] == data@[4] && data@.skip(4)[1] == data@[5] && data@.skip(4)[2]
        == data@[6] && data@.skip(4)[3] == data@[7]);
}

/// Measuring gives the largest number of leading bytes that agree, up to the limit.
pub proof fn law_match_length(s1: &[u8], s2: &[u8], limit: usize, len: usize)
    requires
        call_ensures(FindMatchLengthWithLimit, (s1, s2, limit), len),
    ensures
        len <= limit && len <= s1@.len() && len <= s2@.len(),
        forall|k: int| 0 <= k < len ==> #[trigger] s1@[k] == s2@[k],
        len == limit || len == s1@.len() || len == s2@.len() || s1@[len as int] != s2@[len as int],
{
    crate::static_dict::lemma_common_prefix(s1@, s2@, limit as int);
}

} // verus!
