//! Where a chunk starts and ends, and compressing one.
use super::owned::{BrotliEncoderThreadError, CompressedFileChunk, CompressionThreadResult};
use crate::params::BrotliEncoderParams;
use core::ops::Range;
use vstd::prelude::*;

verus! {

/// Where chunk `thread_index` of `num_threads` starts.
pub open spec fn chunk_start(thread_index: int, num_threads: int, file_size: int) -> int {
    (thread_index * file_size) / num_threads
}

/// The part of an input of `file_size` bytes that chunk `thread_index` of `num_threads` covers.
pub fn get_range(thread_index: usize, num_threads: usize, file_size: usize) -> (range: Range<usize>)
    requires
        0 < num_threads,
        thread_index < usize::MAX,
        (thread_index + 1) * file_size <= usize::MAX,
    ensures
        range.start == chunk_start(thread_index as int, num_threads as int, file_size as int),
        range.end == chunk_start(thread_index + 1, num_threads as int, file_size as int),
        range.start <= range.end,
        thread_index < num_threads ==> range.end <= file_size,
{
    proof {
        assert(thread_index * file_size <= (thread_index + 1) * file_size) by (nonlinear_arith);
        lemma_chunk_order(thread_index as int, num_threads as int, file_size as int);
    }
    Range {
        start: (thread_index * file_size) / num_threads,
        end: ((thread_index + 1) * file_size) / num_threads,
    }
}

/// Chunks lie one behind the other within the input, and no two differ in size by more than a byte.
pub proof fn lemma_chunk_order(i: int, n: int, size: int)
    requires
        0 <= i,
        0 < n,
        0 <= size,
    ensures
        0 <= chunk_start(i, n, size) <= chunk_start(i + 1, n, size),
        i < n ==> chunk_start(i + 1, n, size) <= size,
        size / n <= chunk_start(i + 1, n, size) - chunk_start(i, n, size) <= size / n + 1,
{
    let a = i * size;
    let b = (i + 1) * size;
    assert(b == a + size && a >= 0 && b >= 0) by (nonlinear_arith)
        requires
            a == i * size,
            b == (i + 1) * size,
            i >= 0,
            size >= 0,
    ;
    vstd::arithmetic::div_mod::lemma_fundamental_div_mod(a, n);
    vstd::arithmetic::div_mod::lemma_fundamental_div_mod(b, n);
    vstd::arithmetic::div_mod::lemma_fundamental_div_mod(size, n);
    vstd::arithmetic::div_mod::lemma_mod_bound(a, n);
    vstd::arithmetic::div_mod::lemma_mod_bound(b, n);
    vstd::arithmetic::div_mod::lemma_mod_bound(size, n);
    let q = b / n - a / n - size / n;
    assert(n * q == a % n + size % n - b % n) by (nonlinear_arith)
        requires
            b == a + size,
            a == n * (a / n) + a % n,
            b == n * (b / n) + b % n,
            size == n * (size / n) + size % n,
            q == b / n - a / n - size / n,
    ;
    assert(0 <= q <= 1) by (nonlinear_arith)
        requires
            n * q == a % n + size % n - b % n,
            0 <= a % n < n,
            0 <= size % n < n,
            0 <= b % n < n,
            n > 0,
    ;
    assert(size / n >= 0 && a / n >= 0) by (nonlinear_arith)
        requires
            size >= 0,
            a >= 0,
            n > 0,
    ;
    if i < n {
        assert(b / n <= size) by (nonlinear_arith)
            requires
                b == (i + 1) * size,
                i + 1 <= n,
                size >= 0,
                n > 0,
                b == n * (b / n) + b % n,
                0 <= b % n,
        ;
    }
}

/// The chunks cover the input: the first starts at its start, each starts where the one before it
/// ends, and the last ends at its end.
pub proof fn lemma_chunks_cover(n: int, size: int)
    requires
        0 < n,
        0 <= size,
    ensures
        chunk_start(0, n, size) == 0,
        chunk_start(n, n, size) == size,
        forall|i: int|
            0 <= i < n ==> 0 <= #[trigger] chunk_start(i, n, size) <= chunk_start(i + 1, n, size)
                <= size,
{
    assert(chunk_start(0, n, size) == 0) by (nonlinear_arith)
        requires
            n > 0,
    ;
    vstd::arithmetic::div_mod::lemma_div_multiples_vanish(size, n);
    assert forall|i: int| 0 <= i < n implies 0 <= #[trigger] chunk_start(i, n, size) <= chunk_start(
        i + 1,
        n,
        size,
    ) <= size by {
        lemma_chunk_order(i, n, size);
    }
}

/// Every byte of the input belongs to a chunk.
pub proof fn lemma_byte_has_chunk(n: int, size: int, at: int) -> (i: int)
    requires
        0 < n,
        0 <= at < size,
    ensures
        0 <= i < n,
        chunk_start(i, n, size) <= at < chunk_start(i + 1, n, size),
{
    lemma_chunks_cover(n, size);
    lemma_chunk_search(n, size, at, n)
}

proof fn lemma_chunk_search(n: int, size: int, at: int, k: int) -> (i: int)
    requires
        0 < n,
        0 <= at,
        0 <= k <= n,
        at < chunk_start(k, n, size),
        chunk_start(0, n, size) == 0,
    ensures
        0 <= i < n,
        chunk_start(i, n, size) <= at < chunk_start(i + 1, n, size),
    decreases k,
{
    if chunk_start(k - 1, n, size) <= at {
        k - 1
    } else {
        lemma_chunk_search(n, size, at, k - 1)
    }
}

/// What a hasher takes in of a chunk from `start` to `end`, if it hashes `lookahead` bytes at a time:
/// every position of the chunk and of the end of the one before it whose bytes lie before `end`.
pub open spec fn fed_range(start: int, end: int, lookahead: usize) -> Option<(int, int)> {
    let overlap = lookahead.wrapping_sub(1);
    if end - start > overlap {
        Some((if start > overlap { start - overlap } else { 0 }, end - overlap))
    } else {
        None
    }
}

/// Which positions a hasher takes in of a chunk; none where the chunk is too short.
pub fn feed_range(range: Range<usize>, lookahead: usize) -> (fed: Option<Range<usize>>)
    requires
        range.start <= range.end,
    ensures
        match fed_range(range.start as int, range.end as int, lookahead) {
            Some(bounds) => fed matches Some(taken) && taken.start == bounds.0 && taken.end
                == bounds.1,
            None => fed is None,
        },
{
    let overlap: usize = lookahead.wrapping_sub(1);
    if range.end - range.start > overlap {
        let start: usize = if range.start > overlap {
            range.start - overlap
        } else {
            0
        };
        Some(Range { start, end: range.end - overlap })
    } else {
        None
    }
}

/// What is taken in of two neighbouring chunks lies side by side, so that no position is hashed twice
/// and none is left out.
pub proof fn lemma_fed_side_by_side(start: int, middle: int, end: int, lookahead: usize)
    requires
        0 <= start,
        fed_range(start, middle, lookahead) is Some,
        fed_range(middle, end, lookahead) is Some,
    ensures
        ({
            let before = fed_range(start, middle, lookahead)->0;
            let behind = fed_range(middle, end, lookahead)->0;
            before.1 == behind.0
        }),
{
}

/// The parameters that chunk `thread_index` is compressed with. Every chunk can be followed by
/// another; all but the first can follow one, and have no magic number.
pub open spec fn spec_chunk_params(params: BrotliEncoderParams, thread_index: usize) -> BrotliEncoderParams {
    BrotliEncoderParams {
        catable: if thread_index != 0 {
            true
        } else {
            params.catable
        },
        magic_number: if thread_index != 0 {
            false
        } else {
            params.magic_number
        },
        appendable: true,
        ..params
    }
}

/// The parameters that chunk `thread_index` is compressed with.
pub fn chunk_params(params: &BrotliEncoderParams, thread_index: usize) -> (chunk: BrotliEncoderParams)
    ensures
        chunk == spec_chunk_params(*params, thread_index),
{
    let mut chunk = *params;
    if thread_index != 0 {
        chunk.catable = true;
        chunk.magic_number = false;
    }
    chunk.appendable = true;
    chunk
}

/// What compressing a chunk goes by: its parameters, the bytes before it that the encoder may look back
/// at, its own bytes, and whether it gets a hasher that has taken in the chunks before it.
#[verifier::ext_equal]
pub struct ChunkWork {
    pub params: BrotliEncoderParams,
    pub dictionary: Option<Seq<u8>>,
    pub bytes: Seq<u8>,
    pub with_hasher: bool,
}

/// What compressing chunk `i` of `n` goes by.
pub open spec fn chunk_work(input: Seq<u8>, params: BrotliEncoderParams, n: int, i: int) -> ChunkWork {
    let size = input.len() as int;
    ChunkWork {
        params: spec_chunk_params(params, i as usize),
        dictionary: if i != 0 {
            Some(input.take(chunk_start(i, n, size)))
        } else {
            None
        },
        bytes: input.subrange(chunk_start(i, n, size), chunk_start(i + 1, n, size)),
        with_hasher: i > 0 && params.favor_cpu_efficiency,
    }
}

/// Compressing a chunk: which bytes of the input are left.
#[derive(Debug)]
pub struct PartProgress {
    start: usize,
    end: usize,
    dictionary_size: Option<usize>,
}

impl PartProgress {
    /// What is left ends behind where it starts.
    pub closed spec fn wf(&self) -> bool {
        self.start <= self.end
    }

    /// Where what is left of the chunk starts.
    pub closed spec fn spec_start(&self) -> int {
        self.start as int
    }

    /// Where the chunk ends.
    pub closed spec fn spec_end(&self) -> int {
        self.end as int
    }

    /// How many bytes before the chunk the encoder may look back at, if it may.
    pub closed spec fn spec_dictionary_size(&self) -> Option<usize> {
        self.dictionary_size
    }

    /// Starts with chunk `thread_index` of an input of `file_size` bytes. All but the first look back
    /// at what comes before them.
    pub fn new(thread_index: usize, num_threads: usize, file_size: usize) -> (part: PartProgress)
        requires
            thread_index < num_threads,
            (thread_index + 1) * file_size <= usize::MAX,
        ensures
            part.wf(),
            part.spec_start() == chunk_start(
                thread_index as int,
                num_threads as int,
                file_size as int,
            ),
            part.spec_end() == chunk_start(
                thread_index + 1,
                num_threads as int,
                file_size as int,
            ),
            0 <= part.spec_start() <= part.spec_end() <= file_size,
            part.spec_dictionary_size() == if thread_index != 0 {
                Some(part.spec_start() as usize)
            } else {
                None
            },
    {
        let range = get_range(thread_index, num_threads, file_size);
        PartProgress {
            start: range.start,
            end: range.end,
            dictionary_size: if thread_index != 0 {
                Some(range.start)
            } else {
                None
            },
        }
    }

    /// How many bytes are left.
    pub fn left(&self) -> (left: usize)
        requires
            self.wf(),
        ensures
            left == self.spec_end() - self.spec_start(),
    {
        self.end - self.start
    }

    /// The bytes of `input` that are left.
    pub fn bytes<'a>(&self, input: &'a [u8]) -> (bytes: &'a [u8])
        requires
            self.wf(),
            self.spec_end() <= input@.len(),
        ensures
            bytes@ == input@.subrange(self.spec_start(), self.spec_end()),
    {
        &input[self.start..self.end]
    }

    /// The bytes of `input` that the encoder may look back at, if it may.
    pub fn dictionary<'a>(&self, input: &'a [u8]) -> (dictionary: Option<&'a [u8]>)
        requires
            self.spec_dictionary_size() matches Some(size) ==> size <= input@.len(),
        ensures
            match self.spec_dictionary_size() {
                Some(size) => dictionary matches Some(bytes) && bytes@ == input@.take(size as int),
                None => dictionary is None,
            },
    {
        match self.dictionary_size {
            Some(size) => {
                let bytes = &input[0..size];
                assert(bytes@ =~= input@.take(size as int));
                Some(bytes)
            },
            None => None,
        }
    }

    /// Takes in what a call of the encoder did: whether it is done, how many bytes it read, how much
    /// room it left and how many bytes it has written in all. Gives how the chunk ended, or nothing
    /// where the encoder is to be called again.
    pub fn step<Panic>(
        &mut self,
        done: bool,
        bytes_read: usize,
        available_out: usize,
        out_offset: usize,
    ) -> (ended: Option<Result<usize, BrotliEncoderThreadError<Panic>>>)
        requires
            old(self).wf(),
            bytes_read <= old(self).spec_end() - old(self).spec_start(),
        ensures
            final(self).wf(),
            final(self).spec_start() == old(self).spec_start() + bytes_read,
            final(self).spec_end() == old(self).spec_end(),
            final(self).spec_dictionary_size() == old(self).spec_dictionary_size(),
            ended == part_ended::<Panic>(done, available_out, out_offset),
    {
        self.start = self.start + bytes_read;
        if done {
            Some(Ok(out_offset))
        } else if available_out == 0 {
            Some(Err(BrotliEncoderThreadError::InsufficientOutputSpace))
        } else {
            None
        }
    }
}

/// What the encoder is given for a chunk is its work: the bytes that are left before the first call are
/// those of the chunk, and it looks back at all that comes before.
pub proof fn lemma_part_is_work(
    part: PartProgress,
    input: Seq<u8>,
    params: BrotliEncoderParams,
    n: int,
    i: int,
)
    requires
        0 <= i < n <= usize::MAX,
        part.spec_start() == chunk_start(i, n, input.len() as int),
        part.spec_end() == chunk_start(i + 1, n, input.len() as int),
        0 <= part.spec_start() <= usize::MAX,
        part.spec_dictionary_size() == if i != 0 {
            Some(part.spec_start() as usize)
        } else {
            None
        },
    ensures
        input.subrange(part.spec_start(), part.spec_end()) == chunk_work(input, params, n, i).bytes,
        match part.spec_dictionary_size() {
            Some(size) => chunk_work(input, params, n, i).dictionary == Some(
                input.take(size as int),
            ),
            None => chunk_work(input, params, n, i).dictionary is None,
        },
{
}

/// How a chunk has ended after a call of the encoder, if it has.
pub open spec fn part_ended<Panic>(
    done: bool,
    available_out: usize,
    out_offset: usize,
) -> Option<Result<usize, BrotliEncoderThreadError<Panic>>> {
    if done {
        Some(Ok(out_offset))
    } else if available_out == 0 {
        Some(Err(BrotliEncoderThreadError::InsufficientOutputSpace))
    } else {
        None
    }
}

/// What a thread gives back once its chunk has ended. The buffer goes with a compressed chunk and is
/// let go otherwise; the allocator comes back in any case.
pub fn part_result<Alloc, Panic>(
    ended: Result<usize, BrotliEncoderThreadError<Panic>>,
    mem: Vec<u8>,
    alloc: Alloc,
) -> (result: CompressionThreadResult<Alloc, Panic>)
    requires
        ended matches Ok(size) ==> size <= mem@.len(),
    ensures
        result.alloc == alloc,
        match ended {
            Ok(size) => result.compressed matches Ok(chunk) && chunk.spec_bytes() == mem@.take(
                size as int,
            ),
            Err(e) => result.compressed == Err::<
                CompressedFileChunk,
                BrotliEncoderThreadError<Panic>,
            >(e),
        },
{
    match ended {
        Ok(size) => CompressionThreadResult {
            compressed: Ok(CompressedFileChunk::new(mem, size)),
            alloc,
        },
        Err(e) => CompressionThreadResult { compressed: Err(e), alloc },
    }
}

} // verus!
