//! What the match finders share: their parameters, the score of a match, and the distance cache.
use vstd::prelude::*;

pub mod search;
pub mod tagged;

verus! {

/// The multiplier of four-byte hashes.
pub const kHashMul32: u32 = 0x1e35_a7bd;

/// The multiplier of longer hashes.
pub const kHashMul64: u64 = 0x1e35_a7bd_1e35_a7bd;

/// What every score starts from, so that no penalty takes one below zero.
pub const BROTLI_SCORE_BASE: u64 = 1920;

/// What each bit of a distance costs.
pub const BROTLI_DISTANCE_BIT_PENALTY: u64 = 30;

/// What four bytes of a match are worth where the parameters say nothing.
pub const BROTLI_LITERAL_BYTE_SCORE: u32 = 540;

/// The shape of a hash table and of its searches.
#[derive(Clone, Copy, PartialEq, Eq, Debug, Structural)]
pub struct BrotliHasherParams {
    pub type_: i32,
    pub bucket_bits: i32,
    pub block_bits: i32,
    pub hash_len: i32,
    pub num_last_distances_to_check: i32,
    pub literal_byte_score: u32,
}

/// What a match finder weighs literals with.
#[derive(Clone, Copy, PartialEq, Eq, Debug, Structural)]
pub struct H9Opts {
    pub literal_byte_score: u32,
}

impl H9Opts {
    /// The weights that `params` ask for.
    pub open spec fn spec_new(params: BrotliHasherParams) -> H9Opts {
        H9Opts {
            literal_byte_score: if params.literal_byte_score != 0 {
                params.literal_byte_score
            } else {
                BROTLI_LITERAL_BYTE_SCORE
            },
        }
    }

    /// Takes the literal score from `params`, or the default one where that is zero.
    pub fn new(params: &BrotliHasherParams) -> (opts: H9Opts)
        ensures
            opts == H9Opts::spec_new(*params),
    {
        H9Opts {
            literal_byte_score: if params.literal_byte_score != 0 {
                params.literal_byte_score
            } else {
                BROTLI_LITERAL_BYTE_SCORE
            },
        }
    }
}

/// The part of a match finder that does not depend on its kind.
#[derive(Clone, Copy, PartialEq, Eq, Debug, Structural)]
pub struct Struct1 {
    pub params: BrotliHasherParams,
    pub is_prepared_: i32,
    pub dict_num_lookups: usize,
    pub dict_num_matches: usize,
}

/// The best match that a search has seen.
#[derive(Clone, Copy, PartialEq, Eq, Debug, Structural)]
pub struct HasherSearchResult {
    pub len: usize,
    pub len_x_code: usize,
    pub distance: usize,
    pub score: u64,
}

/// Whether a match finder had to be prepared.
#[derive(Clone, Copy, PartialEq, Eq, Debug, Structural)]
pub enum HowPrepared {
    ALREADY_PREPARED,
    NEWLY_PREPARED,
}

/// The position of the highest bit of `v`.
pub open spec fn log2_floor(v: u64) -> u32 {
    63u32 ^ (vstd::std_specs::bits::u64_leading_zeros(v) as u32)
}

/// The score of a match of `copy_length` bytes at distance `backward`.
pub open spec fn backward_reference_score(copy_length: usize, backward: usize, opts: H9Opts) -> u64 {
    BROTLI_SCORE_BASE.wrapping_add(
        (opts.literal_byte_score as u64).wrapping_mul(copy_length as u64) >> 2,
    ).wrapping_sub(BROTLI_DISTANCE_BIT_PENALTY.wrapping_mul(log2_floor(backward as u64) as u64))
}

/// The score of a match of `copy_length` bytes at a recent distance.
pub open spec fn last_distance_score(copy_length: usize, opts: H9Opts) -> u64 {
    (opts.literal_byte_score as u64 >> 2).wrapping_mul(copy_length as u64).wrapping_add(
        BROTLI_SCORE_BASE.wrapping_add(15),
    )
}

/// What entry `distance_short_code` of the distance cache costs.
pub open spec fn last_distance_penalty(distance_short_code: usize) -> u64 {
    39u64.wrapping_add((0x0001_ca10u64 >> (distance_short_code as u64 & 0x0e)) & 0x0e)
}

/// Scores a match of `copy_length` bytes at distance `backward_reference_offset`.
pub fn BackwardReferenceScore(
    copy_length: usize,
    backward_reference_offset: usize,
    opts: H9Opts,
) -> (score: u64)
    ensures
        score == backward_reference_score(copy_length, backward_reference_offset, opts),
{
    let gain: u64 = (opts.literal_byte_score as u64).wrapping_mul(copy_length as u64) >> 2;
    let bits: u32 = 63u32 ^ (backward_reference_offset as u64).leading_zeros();
    BROTLI_SCORE_BASE.wrapping_add(gain).wrapping_sub(
        BROTLI_DISTANCE_BIT_PENALTY.wrapping_mul(bits as u64),
    )
}

/// Scores a match of `copy_length` bytes at the last distance.
pub fn BackwardReferenceScoreUsingLastDistance(copy_length: usize, opts: H9Opts) -> (score: u64)
    ensures
        score == last_distance_score(copy_length, opts),
{
    (opts.literal_byte_score as u64 >> 2).wrapping_mul(copy_length as u64).wrapping_add(
        BROTLI_SCORE_BASE.wrapping_add(15),
    )
}

/// What it costs to name entry `distance_short_code` of the distance cache.
pub fn BackwardReferencePenaltyUsingLastDistance(distance_short_code: usize) -> (penalty: u64)
    ensures
        penalty == last_distance_penalty(distance_short_code),
{
    let shift: u64 = distance_short_code as u64 & 0x0e;
    assert(shift < 64) by (bit_vector)
        requires
            shift == distance_short_code as u64 & 0x0e,
    ;
    39u64.wrapping_add((0x0001_ca10u64 >> shift) & 0x0e)
}

/// The length of a match that starts at `prev_ix` and may not run over the break in the ring buffer.
pub open spec fn unbroken_len(len: int, prev_ix: int, ring_buffer_break: Option<usize>) -> int {
    match ring_buffer_break {
        Some(at) => if prev_ix < at && prev_ix + len > at {
            at - prev_ix
        } else {
            len
        },
        None => len,
    }
}

/// Cuts a match off where it would run over the break in the ring buffer. A break lies behind the
/// first byte.
pub fn fix_unbroken_len(
    unbroken_len: usize,
    prev_ix: usize,
    ring_buffer_break: Option<usize>,
) -> (len: usize)
    requires
        prev_ix + unbroken_len <= usize::MAX,
    ensures
        len == self::unbroken_len(unbroken_len as int, prev_ix as int, ring_buffer_break),
        len <= unbroken_len,
{
    if let Some(at) = ring_buffer_break {
        if prev_ix < at && prev_ix + unbroken_len > at {
            return at - prev_ix;
        }
    }
    unbroken_len
}

/// The distances that `adv_prepare_distance_cache` derives from the last two: entry `i` from four on
/// is the last distance, or from ten on the one before it, moved by one, two or three both ways.
pub open spec fn prepared_distance(cache: Seq<i32>, num_distances: i32, i: int) -> int {
    if num_distances > 4 && 4 <= i < 10 {
        cache[0] + distance_offset(i - 4)
    } else if num_distances > 10 && 10 <= i < 16 {
        cache[1] + distance_offset(i - 10)
    } else {
        cache[i] as int
    }
}

/// The offsets -1, 1, -2, 2, -3 and 3, in that order.
pub open spec fn distance_offset(j: int) -> int {
    if j % 2 == 0 {
        -(j / 2 + 1)
    } else {
        j / 2 + 1
    }
}

/// Fills the distance cache behind the last four distances with their neighbours, as far as
/// `num_distances` asks for.
pub fn adv_prepare_distance_cache(distance_cache: &mut [i32], num_distances: i32)
    requires
        num_distances > 4 ==> old(distance_cache)@.len() >= 10 && i32::MIN + 3 <= old(
            distance_cache,
        )@[0] <= i32::MAX - 3,
        num_distances > 10 ==> old(distance_cache)@.len() >= 16 && i32::MIN + 3 <= old(
            distance_cache,
        )@[1] <= i32::MAX - 3,
    ensures
        final(distance_cache)@.len() == old(distance_cache)@.len(),
        forall|i: int|
            0 <= i < old(distance_cache)@.len() ==> #[trigger] final(distance_cache)@[i]
                == prepared_distance(old(distance_cache)@, num_distances, i),
{
    if num_distances > 4 {
        let last: i32 = distance_cache[0];
        distance_cache[4] = last - 1;
        distance_cache[5] = last + 1;
        distance_cache[6] = last - 2;
        distance_cache[7] = last + 2;
        distance_cache[8] = last - 3;
        distance_cache[9] = last + 3;
        if num_distances > 10 {
            let next_last: i32 = distance_cache[1];
            distance_cache[10] = next_last - 1;
            distance_cache[11] = next_last + 1;
            distance_cache[12] = next_last - 2;
            distance_cache[13] = next_last + 2;
            distance_cache[14] = next_last - 3;
            distance_cache[15] = next_last + 3;
        }
    }
}

} // verus!
