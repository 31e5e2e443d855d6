//! Laws of cutting an input into chunks.
use crate::params::BrotliEncoderParams;
use crate::threading::chunks::{
    chunk_params, chunk_work, feed_range, get_range, part_result, PartProgress,
};
use crate::threading::owned::{
    BrotliEncoderThreadError, CompressedFileChunk, CompressionThreadResult,
};
use core::ops::Range;
use vstd::prelude::*;

verus! {

/// A chunk is compressed as the whole was to be: only what makes the chunks fit together may differ. All
/// can be followed, all but the first can follow, and only the first can have a magic number.
pub proof fn law_chunk_params(
    params: BrotliEncoderParams,
    thread_index: usize,
    chunk: BrotliEncoderParams,
)
    requires
        call_ensures(chunk_params, (&params, thread_index), chunk),
    ensures
        chunk.quality == params.quality,
        chunk.lgwin == params.lgwin,
        chunk.favor_cpu_efficiency == params.favor_cpu_efficiency,
        chunk.appendable,
        chunk.catable == (params.catable || thread_index > 0),
        chunk.magic_number == (params.magic_number && thread_index == 0),
{
}

/// Chunk `i` of `n` starts at the `i`-th `n`-th of the input and ends at the next one, each rounded down.
pub proof fn law_chunk_range(i: usize, n: usize, size: usize, range: Range<usize>)
    requires
        n > 0,
        i < usize::MAX,
        (i + 1) * size <= usize::MAX,
        call_ensures(get_range, (i, n, size), range),
    ensures
        n * range.start <= i * size < n * range.start + n,
        n * range.end <= (i + 1) * size < n * range.end + n,
{
    let a = i * size;
    let b = (i + 1) * size;
    vstd::arithmetic::div_mod::lemma_fundamental_div_mod(a as int, n as int);
    vstd::arithmetic::div_mod::lemma_fundamental_div_mod(b as int, n as int);
    vstd::arithmetic::div_mod::lemma_mod_bound(a as int, n as int);
    vstd::arithmetic::div_mod::lemma_mod_bound(b as int, n as int);
}

/// Neighbouring chunks touch, the first starts at the start of the input, and the last ends at its end.
pub proof fn law_chunks_touch(
    i: usize,
    n: usize,
    size: usize,
    range: Range<usize>,
    next: Range<usize>,
)
    requires
        0 < n,
        i < n < usize::MAX,
        (i + 2) * size <= usize::MAX,
        call_ensures(get_range, (i, n, size), range),
        call_ensures(get_range, ((i + 1) as usize, n, size), next),
    ensures
        range.end == next.start,
        i == 0 ==> range.start == 0,
        i + 1 == n ==> range.end == size,
{
    crate::threading::chunks::lemma_chunks_cover(n as int, size as int);
}

/// A hasher that looks at `lookahead` bytes takes in of a chunk every position whose bytes end in the
/// chunk, and no other; nothing of a chunk that is shorter than that.
pub proof fn law_fed_positions(range: Range<usize>, lookahead: usize, fed: Option<Range<usize>>)
    requires
        range.start <= range.end,
        call_ensures(feed_range, (range, lookahead), fed),
    ensures
        fed is Some <==> lookahead > 0 && range.end - range.start >= lookahead,
        fed matches Some(taken) ==> forall|p: int|
            0 <= p ==> (#[trigger] (p + lookahead) > range.start && p + lookahead <= range.end
                <==> taken.start <= p < taken.end),
{
}

/// Compressing chunk `i` of `n` starts with all of its bytes, and looks back at all that lies before it,
/// if it is not the first.
pub proof fn law_part_starts(i: usize, n: usize, input: Seq<u8>, part: PartProgress)
    requires
        i < n,
        input.len() <= usize::MAX,
        (i + 1) * input.len() <= usize::MAX,
        call_ensures(PartProgress::new, (i, n, input.len() as usize), part),
    ensures
        n * part.spec_start() <= i * input.len() < n * part.spec_start() + n,
        n * part.spec_end() <= (i + 1) * input.len() < n * part.spec_end() + n,
        i == 0 <==> part.spec_dictionary_size() is None,
        part.spec_dictionary_size() matches Some(size) ==> size == part.spec_start(),
{
    let a = i * input.len();
    let b = (i + 1) * input.len();
    vstd::arithmetic::div_mod::lemma_fundamental_div_mod(a as int, n as int);
    vstd::arithmetic::div_mod::lemma_fundamental_div_mod(b as int, n as int);
    vstd::arithmetic::div_mod::lemma_mod_bound(a as int, n as int);
    vstd::arithmetic::div_mod::lemma_mod_bound(b as int, n as int);
}

/// The encoder is given all that is left of a chunk and nothing else, and looks back at all that lies
/// before the chunk.
pub proof fn law_part_bytes<'a>(
    part: PartProgress,
    input: &'a [u8],
    left: usize,
    bytes: &'a [u8],
    dictionary: Option<&'a [u8]>,
)
    requires
        part.wf(),
        0 <= part.spec_start() <= part.spec_end() <= input@.len(),
        call_ensures(PartProgress::left, (&part,), left),
        call_ensures(PartProgress::bytes, (&part, input), bytes),
        call_ensures(PartProgress::dictionary, (&part, input), dictionary),
    ensures
        left == part.spec_end() - part.spec_start(),
        bytes@.len() == left,
        forall|k: int| 0 <= k < left ==> #[trigger] bytes@[k] == input@[part.spec_start() + k],
        dictionary is Some <==> part.spec_dictionary_size() is Some,
        dictionary matches Some(before) ==> before@ == input@.take(
            part.spec_dictionary_size()->0 as int,
        ),
{
}

/// Compressing a chunk ends well exactly when the encoder is done, however much room is left, and with
/// all that it has written. It fails for want of room exactly when the encoder is not done and has none.
/// What the encoder has read is not given to it again.
pub proof fn law_part_goes_on<Panic>(
    part: &mut PartProgress,
    done: bool,
    bytes_read: usize,
    available_out: usize,
    out_offset: usize,
    ended: Option<Result<usize, BrotliEncoderThreadError<Panic>>>,
)
    requires
        old(part).wf(),
        bytes_read <= old(part).spec_end() - old(part).spec_start(),
        call_ensures(
            PartProgress::step::<Panic>,
            (part, done, bytes_read, available_out, out_offset),
            ended,
        ),
    ensures
        ended is None <==> !done && available_out > 0,
        ended matches Some(result) ==> (result is Ok <==> done),
        ended matches Some(Ok(size)) ==> size == out_offset,
        ended matches Some(Err(e)) ==> e is InsufficientOutputSpace,
        final(part).spec_start() == old(part).spec_start() + bytes_read,
        final(part).spec_end() == old(part).spec_end(),
        final(part).spec_dictionary_size() == old(part).spec_dictionary_size(),
{
}

/// A thread gives its allocator back however its chunk ended, and of the buffer exactly the bytes that
/// were written.
pub proof fn law_part_result<Alloc, Panic>(
    ended: Result<usize, BrotliEncoderThreadError<Panic>>,
    mem: Vec<u8>,
    alloc: Alloc,
    result: CompressionThreadResult<Alloc, Panic>,
)
    requires
        ended matches Ok(size) ==> size <= mem@.len(),
        call_ensures(part_result::<Alloc, Panic>, (ended, mem, alloc), result),
    ensures
        result.alloc == alloc,
        result.compressed is Ok <==> ended is Ok,
        ended matches Err(e) ==> result.compressed == Err::<
            CompressedFileChunk,
            BrotliEncoderThreadError<Panic>,
        >(e),
        ended matches Ok(size) ==> ({
            let bytes = result.compressed->Ok_0.spec_bytes();
            &&& bytes.len() == size
            &&& forall|k: int| 0 <= k < size ==> #[trigger] bytes[k] == mem@[k]
        }),
{
}

/// The bytes of the chunks, put one behind the other, are the input: byte `k` of chunk `i` stands as far
/// behind the start of the chunk as in the input, and behind what the chunk looks back at. It is compressed
/// with the parameters of its chunk.
pub proof fn law_chunk_work(
    input: Seq<u8>,
    params: BrotliEncoderParams,
    n: int,
    i: int,
    k: int,
    chunk: BrotliEncoderParams,
)
    requires
        0 <= i < n,
        call_ensures(chunk_params, (&params, i as usize), chunk),
        0 <= k < chunk_work(input, params, n, i).bytes.len(),
    ensures
        ({
            let work = chunk_work(input, params, n, i);
            let start = match work.dictionary {
                Some(dictionary) => dictionary.len() as int,
                None => 0,
            };
            &&& start + k < input.len()
            &&& work.bytes[k] == input[start + k]
            &&& work.dictionary is Some <==> i > 0
            &&& work.dictionary matches Some(dictionary) ==> forall|j: int|
                0 <= j < dictionary.len() ==> #[trigger] dictionary[j] == input[j]
            &&& work.with_hasher == (i > 0 && params.favor_cpu_efficiency)
            &&& work.params == chunk
            &&& n * (start + work.bytes.len()) <= (i + 1) * input.len() < n * (start
                + work.bytes.len()) + n
        }),
{
    crate::threading::chunks::lemma_chunks_cover(n, input.len() as int);
    crate::threading::chunks::lemma_chunk_order(i, n, input.len() as int);
    let b = (i + 1) * input.len();
    vstd::arithmetic::div_mod::lemma_fundamental_div_mod(b as int, n);
    vstd::arithmetic::div_mod::lemma_mod_bound(b as int, n);
}

} // verus!
