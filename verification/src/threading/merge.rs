//! What becomes of the results of the chunks.
use super::chunks::{chunk_work, ChunkWork};
use super::owned::{
    BroCatliResult, BrotliEncoderThreadError, CompressedFileChunk, CompressionThreadResult,
    owned_bytes, InternalSendAlloc, Joinable, Owned, OwnedRetriever, SendAlloc,
};
use crate::params::BrotliEncoderParams;
use vstd::prelude::*;

verus! {

/// Remembers the first of several errors.
pub fn set_pending_error<Panic>(
    pending_error: &mut Option<BrotliEncoderThreadError<Panic>>,
    error: BrotliEncoderThreadError<Panic>,
)
    ensures
        *final(pending_error) == first_error(*old(pending_error), error),
{
    if pending_error.is_none() {
        *pending_error = Some(error);
    }
}

/// The first error stays.
pub open spec fn first_error<Panic>(
    pending: Option<BrotliEncoderThreadError<Panic>>,
    error: BrotliEncoderThreadError<Panic>,
) -> Option<BrotliEncoderThreadError<Panic>> {
    match pending {
        Some(e) => Some(e),
        None => Some(error),
    }
}

/// What came of a chunk: its thread was lost, it could not be compressed, it was put behind the chunks
/// before it, or it was skipped, since something had gone wrong before it.
pub enum ChunkEvent<Panic> {
    Lost(BrotliEncoderThreadError<Panic>),
    Failed(BrotliEncoderThreadError<Panic>),
    Concatenated(BroCatliResult),
    Skipped,
}

impl<Panic> ChunkEvent<Panic> {
    /// Why the whole fails on account of this chunk, if it does.
    pub open spec fn error(self) -> Option<BrotliEncoderThreadError<Panic>> {
        match self {
            ChunkEvent::Lost(e) => Some(e),
            ChunkEvent::Failed(e) => Some(e),
            ChunkEvent::Concatenated(result) => concatenation_error(result),
            ChunkEvent::Skipped => None,
        }
    }
}

/// Why putting a chunk behind the others failed, if it did.
pub open spec fn concatenation_error<Panic>(result: BroCatliResult) -> Option<
    BrotliEncoderThreadError<Panic>,
> {
    match result {
        BroCatliResult::Success => None,
        BroCatliResult::NeedsMoreInput => None,
        BroCatliResult::NeedsMoreOutput => Some(BrotliEncoderThreadError::InsufficientOutputSpace),
        other => Some(BrotliEncoderThreadError::ConcatenationError(other)),
    }
}

/// The error that is pending after one chunk more.
pub open spec fn after<Panic>(
    pending: Option<BrotliEncoderThreadError<Panic>>,
    event: ChunkEvent<Panic>,
) -> Option<BrotliEncoderThreadError<Panic>> {
    match pending {
        Some(e) => Some(e),
        None => event.error(),
    }
}

/// The error that is pending after several chunks.
pub open spec fn after_all<Panic>(events: Seq<ChunkEvent<Panic>>) -> Option<
    BrotliEncoderThreadError<Panic>,
>
    decreases events.len(),
{
    if events.len() == 0 {
        None
    } else {
        after(after_all(events.drop_last()), events.last())
    }
}

/// How the whole ends: with the pending error, or else with how finishing the stream went, which has
/// `out_file_size` bytes by then.
pub open spec fn outcome<Panic>(
    pending: Option<BrotliEncoderThreadError<Panic>>,
    finished: BroCatliResult,
    out_file_size: usize,
) -> Result<usize, BrotliEncoderThreadError<Panic>> {
    match pending {
        Some(e) => Err(e),
        None => if finished == BroCatliResult::Success {
            Ok(out_file_size)
        } else {
            Err(BrotliEncoderThreadError::ConcatenationFinalizationError(finished))
        },
    }
}

/// The result of a thread: what it gave back, or why it was lost.
pub type Joined<Alloc, Panic> = Result<
    CompressionThreadResult<Alloc, Panic>,
    BrotliEncoderThreadError<Panic>,
>;

/// Whether `event` is what comes of a thread with this result while `pending` is pending.
pub open spec fn comes_of<Alloc, Panic>(
    event: ChunkEvent<Panic>,
    joined: Joined<Alloc, Panic>,
    pending: Option<BrotliEncoderThreadError<Panic>>,
) -> bool {
    match joined {
        Err(e) => event == ChunkEvent::Lost(e),
        Ok(result) => match result.compressed {
            Err(e) => event == ChunkEvent::Failed(e),
            Ok(_) => if pending is None {
                event is Concatenated
            } else {
                event is Skipped
            },
        },
    }
}

/// What comes of a thread whose chunk is not put behind the others.
pub open spec fn without_chunk<Alloc, Panic>(joined: Joined<Alloc, Panic>) -> ChunkEvent<Panic> {
    match joined {
        Err(e) => ChunkEvent::Lost(e),
        Ok(result) => match result.compressed {
            Err(e) => ChunkEvent::Failed(e),
            Ok(_) => ChunkEvent::Skipped,
        },
    }
}

/// Whether `events` are what comes of threads with these results, one after the other.
pub open spec fn come_of<Alloc, Panic>(
    events: Seq<ChunkEvent<Panic>>,
    results: Seq<Joined<Alloc, Panic>>,
) -> bool {
    &&& events.len() == results.len()
    &&& forall|i: int|
        0 <= i < events.len() ==> comes_of(
            #[trigger] events[i],
            results[i],
            after_all(events.take(i)),
        )
}

/// The allocator that a thread brought back, if it was not lost.
pub open spec fn allocator_of<Alloc, Panic>(joined: Joined<Alloc, Panic>) -> Option<Alloc> {
    match joined {
        Ok(result) => Some(result.alloc),
        Err(_) => None,
    }
}

/// Puts streams one behind the other.
pub trait Catenator: Sized {
    /// Another stream begins.
    fn new_brotli_file(self) -> Self;

    /// Puts the bytes of a stream behind what is there.
    fn stream(self, in_bytes: &[u8]) -> (Self, BroCatliResult);

    /// Ends the whole, and tells how many bytes it has.
    fn finish(self) -> (BroCatliResult, usize);
}

/// `before` becomes `after` by starting another stream and putting `bytes` behind what is there, which
/// goes as `result` tells.
pub open spec fn puts_behind<Cat: Catenator>(
    before: Cat,
    bytes: Seq<u8>,
    after: Cat,
    result: BroCatliResult,
) -> bool {
    exists|fresh: Cat, given: &[u8]|
        {
            &&& #[trigger] call_ensures(Cat::new_brotli_file, (before,), fresh)
            &&& given@ == bytes
            &&& #[trigger] call_ensures(Cat::stream, (fresh, given), (after, result))
        }
}

/// What a chunk does to the whole: its bytes are put behind what is there, or nothing is done.
pub open spec fn takes_in<Cat: Catenator, Alloc, Panic>(
    before: Cat,
    joined: Joined<Alloc, Panic>,
    event: ChunkEvent<Panic>,
    after: Cat,
) -> bool {
    match event {
        ChunkEvent::Concatenated(result) => {
            &&& joined matches Ok(brought)
            &&& brought.compressed matches Ok(chunk)
            &&& puts_behind(before, chunk.spec_bytes(), after, result)
        },
        _ => after == before,
    }
}

/// A course of putting the chunks together: `events` are what comes of the threads, and `cats` what the
/// whole is before the first chunk and behind each.
pub open spec fn is_course<Cat: Catenator, Alloc, Panic>(
    cats: Seq<Cat>,
    events: Seq<ChunkEvent<Panic>>,
    results: Seq<Joined<Alloc, Panic>>,
) -> bool {
    &&& come_of(events, results)
    &&& cats.len() == events.len() + 1
    &&& forall|i: int|
        0 <= i < events.len() ==> takes_in(
            cats[i],
            results[i],
            #[trigger] events[i],
            cats[i + 1],
        )
}

/// The stream is finished, if nothing went wrong.
pub open spec fn finishes<Cat: Catenator, Panic>(
    cat: Cat,
    pending: Option<BrotliEncoderThreadError<Panic>>,
    finished: BroCatliResult,
    out_file_size: usize,
) -> bool {
    pending is None ==> call_ensures(Cat::finish, (cat,), (finished, out_file_size))
}

/// Whether compressing ends with `result`, the threads having had these results: some course of putting
/// the chunks together, from `cat` on, ends with it.
pub open spec fn ends_with<Cat: Catenator, Alloc, Panic>(
    cat: Cat,
    results: Seq<Joined<Alloc, Panic>>,
    result: Result<usize, BrotliEncoderThreadError<Panic>>,
) -> bool {
    exists|
        cats: Seq<Cat>,
        events: Seq<ChunkEvent<Panic>>,
        finished: BroCatliResult,
        out_file_size: usize,
    |
        {
            &&& #[trigger] is_course(cats, events, results)
            &&& cats[0] == cat
            &&& finishes(cats.last(), after_all(events), finished, out_file_size)
            &&& result == #[trigger] outcome(after_all(events), finished, out_file_size)
        }
}

/// Putting the chunks together, in order, and collecting the allocators of their threads.
#[derive(Debug)]
pub struct Merge<Alloc, Panic> {
    pending_error: Option<BrotliEncoderThreadError<Panic>>,
    returned: Vec<Option<Alloc>>,
}

impl<Alloc, Panic> Merge<Alloc, Panic> {
    /// The first error so far.
    pub closed spec fn pending(&self) -> Option<BrotliEncoderThreadError<Panic>> {
        self.pending_error
    }

    /// The allocators that came back so far, one place for each thread.
    pub closed spec fn allocators(&self) -> Seq<Option<Alloc>> {
        self.returned@
    }

    /// The allocators that came back.
    pub fn into_returned(self) -> (returned: Vec<Option<Alloc>>)
        ensures
            returned@ == self.allocators(),
    {
        self.returned
    }

    /// Starts with nothing.
    pub fn new() -> (merge: Merge<Alloc, Panic>)
        ensures
            merge.pending() is None,
            merge.allocators() == Seq::<Option<Alloc>>::empty(),
    {
        Merge { pending_error: None, returned: Vec::new() }
    }

    /// Takes the result of the next thread. Its allocator comes back unless it was lost, and its
    /// chunk is given where it is to be put behind the ones before it: that is so as long as nothing
    /// went wrong.
    pub fn take(&mut self, joined: Joined<Alloc, Panic>) -> (chunk: Option<CompressedFileChunk>)
        ensures
            final(self).allocators() == old(self).allocators().push(allocator_of(joined)),
            match joined {
                Err(e) => {
                    &&& final(self).pending() == after(
                        old(self).pending(),
                        ChunkEvent::Lost(e),
                    )
                    &&& chunk is None
                },
                Ok(result) => match result.compressed {
                    Err(e) => {
                        &&& final(self).pending() == after(
                            old(self).pending(),
                            ChunkEvent::Failed(e),
                        )
                        &&& chunk is None
                    },
                    Ok(out) => {
                        &&& final(self).pending() == old(self).pending()
                        &&& chunk == if old(self).pending() is None {
                            Some(out)
                        } else {
                            None
                        }
                    },
                },
            },
    {
        match joined {
            Ok(result) => {
                self.returned.push(Some(result.alloc));
                match result.compressed {
                    Ok(out) => {
                        if self.pending_error.is_none() {
                            Some(out)
                        } else {
                            None
                        }
                    },
                    Err(e) => {
                        set_pending_error(&mut self.pending_error, e);
                        None
                    },
                }
            },
            Err(e) => {
                self.returned.push(None);
                set_pending_error(&mut self.pending_error, e);
                None
            },
        }
    }

    /// Takes how putting a chunk behind the ones before it went.
    pub fn concatenated(&mut self, result: BroCatliResult)
        ensures
            final(self).allocators() == old(self).allocators(),
            final(self).pending() == after(
                old(self).pending(),
                ChunkEvent::Concatenated(result),
            ),
    {
        match result {
            BroCatliResult::Success | BroCatliResult::NeedsMoreInput => {},
            BroCatliResult::NeedsMoreOutput => {
                set_pending_error(
                    &mut self.pending_error,
                    BrotliEncoderThreadError::InsufficientOutputSpace,
                );
            },
            err => {
                set_pending_error(
                    &mut self.pending_error,
                    BrotliEncoderThreadError::ConcatenationError(err),
                );
            },
        }
    }

    /// Takes the result of the next thread, and puts its chunk behind the ones before it.
    fn absorb<Cat: Catenator>(&mut self, joined: Joined<Alloc, Panic>, cat: Cat) -> ((
        next,
        event,
    ): (Cat, Ghost<ChunkEvent<Panic>>))
        ensures
            final(self).allocators() == old(self).allocators().push(allocator_of(joined)),
            comes_of(event@, joined, old(self).pending()),
            takes_in(cat, joined, event@, next),
            final(self).pending() == after(old(self).pending(), event@),
    {
        let ghost given = joined;
        match self.take(joined) {
            Some(chunk) => {
                let fresh = cat.new_brotli_file();
                let ghost begun = fresh;
                let bytes = chunk.bytes();
                let (next, result) = fresh.stream(bytes);
                self.concatenated(result);
                proof {
                    assert(call_ensures(Cat::new_brotli_file, (cat,), begun));
                    assert(call_ensures(Cat::stream, (begun, bytes), (next, result)));
                }
                (next, Ghost(ChunkEvent::Concatenated(result)))
            },
            None => (cat, Ghost(without_chunk(given))),
        }
    }

    /// How the whole ends: with the first error, or else with how finishing the stream went.
    pub fn conclude(&mut self, finished: BroCatliResult, out_file_size: usize) -> (result: Result<
        usize,
        BrotliEncoderThreadError<Panic>,
    >)
        ensures
            result == outcome(old(self).pending(), finished, out_file_size),
            final(self).allocators() == old(self).allocators(),
    {
        match self.pending_error.take() {
            Some(error) => Err(error),
            None => match finished {
                BroCatliResult::Success => Ok(out_file_size),
                err => Err(BrotliEncoderThreadError::ConcatenationFinalizationError(err)),
            },
        }
    }

    /// Finishes the stream if nothing went wrong, and tells how the whole ends.
    fn finish<Cat: Catenator>(&mut self, cat: Cat) -> (result: Result<
        usize,
        BrotliEncoderThreadError<Panic>,
    >)
        ensures
            exists|finished: BroCatliResult, out_file_size: usize|
                {
                    &&& finishes(cat, old(self).pending(), finished, out_file_size)
                    &&& result == #[trigger] outcome(
                        old(self).pending(),
                        finished,
                        out_file_size,
                    )
                },
            final(self).allocators() == old(self).allocators(),
    {
        if self.pending_error.is_none() {
            let (finished, out_file_size) = cat.finish();
            self.conclude(finished, out_file_size)
        } else {
            self.conclude(BroCatliResult::Success, 0)
        }
    }
}

/// A course goes on with the next thread.
proof fn lemma_course_push<Cat: Catenator, Alloc, Panic>(
    cats: Seq<Cat>,
    events: Seq<ChunkEvent<Panic>>,
    results: Seq<Joined<Alloc, Panic>>,
    cat: Cat,
    event: ChunkEvent<Panic>,
    joined: Joined<Alloc, Panic>,
)
    requires
        is_course(cats, events, results),
        comes_of(event, joined, after_all(events)),
        takes_in(cats.last(), joined, event, cat),
    ensures
        is_course(cats.push(cat), events.push(event), results.push(joined)),
        after_all(events.push(event)) == after(after_all(events), event),
{
    lemma_come_of_push(events, results, event, joined);
    let more = events.push(event);
    assert forall|i: int| 0 <= i < more.len() implies takes_in(
        cats.push(cat)[i],
        results.push(joined)[i],
        #[trigger] more[i],
        cats.push(cat)[i + 1],
    ) by {
        if i < events.len() {
            assert(takes_in(cats[i], results[i], events[i], cats[i + 1]));
        }
    }
}

proof fn lemma_come_of_push<Alloc, Panic>(
    events: Seq<ChunkEvent<Panic>>,
    results: Seq<Joined<Alloc, Panic>>,
    event: ChunkEvent<Panic>,
    joined: Joined<Alloc, Panic>,
)
    requires
        come_of(events, results),
        comes_of(event, joined, after_all(events)),
    ensures
        come_of(events.push(event), results.push(joined)),
        after_all(events.push(event)) == after(after_all(events), event),
{
    let more = events.push(event);
    assert(more.drop_last() =~= events);
    assert forall|i: int| 0 <= i < more.len() implies comes_of(
        #[trigger] more[i],
        results.push(joined)[i],
        after_all(more.take(i)),
    ) by {
        if i < events.len() {
            assert(more.take(i) =~= events.take(i));
            assert(comes_of(events[i], results[i], after_all(events.take(i))));
        } else {
            assert(more.take(i) =~= events);
        }
    }
}

/// Chunk `k` is the first that goes wrong.
pub open spec fn is_first_error<Panic>(events: Seq<ChunkEvent<Panic>>, k: int) -> bool {
    &&& 0 <= k < events.len()
    &&& events[k].error() is Some
    &&& forall|j: int| 0 <= j < k ==> (#[trigger] events[j]).error() is None
}

/// No chunk goes wrong.
pub open spec fn all_well<Panic>(events: Seq<ChunkEvent<Panic>>) -> bool {
    forall|j: int| 0 <= j < events.len() ==> (#[trigger] events[j]).error() is None
}

proof fn lemma_all_well<Panic>(events: Seq<ChunkEvent<Panic>>)
    requires
        all_well(events),
    ensures
        after_all(events) is None,
    decreases events.len(),
{
    if events.len() > 0 {
        let before = events.drop_last();
        assert forall|j: int| 0 <= j < before.len() implies (#[trigger] before[j]).error()
            is None by {
            assert(events[j].error() is None);
        }
        lemma_all_well(before);
        assert(events[events.len() - 1].error() is None);
    }
}

proof fn lemma_first_error_stays<Panic>(events: Seq<ChunkEvent<Panic>>, k: int)
    requires
        is_first_error(events, k),
    ensures
        after_all(events) == events[k].error(),
    decreases events.len(),
{
    let before = events.drop_last();
    if k < before.len() {
        assert(before[k] == events[k]);
        assert forall|j: int| 0 <= j < k implies (#[trigger] before[j]).error() is None by {
            assert(events[j].error() is None);
        }
        lemma_first_error_stays(before, k);
    } else {
        assert forall|j: int| 0 <= j < before.len() implies (#[trigger] before[j]).error()
            is None by {
            assert(events[j].error() is None);
        }
        lemma_all_well(before);
    }
}

/// The first chunk that goes wrong decides: whatever comes behind it, the whole ends with its error.
pub proof fn lemma_first_error_decides<Panic>(
    events: Seq<ChunkEvent<Panic>>,
    k: int,
    finished: BroCatliResult,
    out_file_size: usize,
)
    requires
        is_first_error(events, k),
    ensures
        outcome(after_all(events), finished, out_file_size) == Err::<
            usize,
            BrotliEncoderThreadError<Panic>,
        >(events[k].error()->0),
{
    lemma_first_error_stays(events, k);
}

/// If no chunk goes wrong, the whole succeeds exactly if the stream could be finished.
pub proof fn lemma_all_well_succeeds<Panic>(
    events: Seq<ChunkEvent<Panic>>,
    finished: BroCatliResult,
    out_file_size: usize,
)
    requires
        all_well(events),
    ensures
        outcome(after_all(events), finished, out_file_size)
            == if finished == BroCatliResult::Success {
            Ok::<usize, BrotliEncoderThreadError<Panic>>(out_file_size)
        } else {
            Err(BrotliEncoderThreadError::ConcatenationFinalizationError(finished))
        },
{
    lemma_all_well(events);
}

/// The result of the chunk that was compressed here. There is none where the input could not be
/// read, since some thread panicked over it.
pub open spec fn spec_last_result<Alloc, Panic>(
    last: Result<CompressionThreadResult<Alloc, Panic>, ()>,
) -> Joined<Alloc, Panic> {
    match last {
        Ok(result) => Ok(result),
        Err(_) => Err(BrotliEncoderThreadError::OtherThreadPanic),
    }
}

/// The result of the chunk that was compressed here.
pub fn last_result<Alloc, Panic>(last: Result<CompressionThreadResult<Alloc, Panic>, ()>) -> (joined:
    Joined<Alloc, Panic>)
    ensures
        joined == spec_last_result(last),
{
    match last {
        Ok(result) => Ok(result),
        Err(_) => Err(BrotliEncoderThreadError::OtherThreadPanic),
    }
}

/// The result that a thread of a scope has left in its slot. A slot that is still empty means that
/// its thread panicked.
pub open spec fn spec_slot_result<Alloc, Panic>(
    slot: Option<CompressionThreadResult<Alloc, Panic>>,
) -> Joined<Alloc, Panic> {
    match slot {
        Some(result) => Ok(result),
        None => Err(BrotliEncoderThreadError::OtherThreadPanic),
    }
}

/// The result that a thread of a scope has left in its slot.
pub fn slot_result<Alloc, Panic>(slot: Option<CompressionThreadResult<Alloc, Panic>>) -> (joined:
    Joined<Alloc, Panic>)
    ensures
        joined == spec_slot_result(slot),
{
    match slot {
        Some(result) => Ok(result),
        None => Err(BrotliEncoderThreadError::OtherThreadPanic),
    }
}

/// A slot after its thread was waited for: it holds the allocator that the thread brought back, with a
/// default extra input, or nothing where the thread was lost.
pub open spec fn settled_slot<ExtraInput: Default, Alloc, Panic, Join>(
    slot: SendAlloc<CompressionThreadResult<Alloc, Panic>, ExtraInput, Alloc, Join>,
    joined: Joined<Alloc, Panic>,
) -> bool {
    match allocator_of(joined) {
        Some(alloc) => slot.0 matches InternalSendAlloc::A(held, extra) && held == alloc
            && call_ensures(ExtraInput::default, (), extra),
        None => slot.0 is SpawningOrJoining,
    }
}

/// Waits for the threads of all slots but the last, whose chunk was compressed here with the result
/// `last`, puts their chunks together in order, and gives every slot its allocator back.
fn merge_threads<
    ExtraInput: Default,
    Alloc: Send + 'static,
    Panic: Send + 'static,
    Join: Joinable<CompressionThreadResult<Alloc, Panic>, BrotliEncoderThreadError<Panic>>,
    Cat: Catenator,
>(
    alloc_per_thread: &mut [SendAlloc<
        CompressionThreadResult<Alloc, Panic>,
        ExtraInput,
        Alloc,
        Join,
    >],
    last: Result<CompressionThreadResult<Alloc, Panic>, ()>,
    cat: Cat,
) -> (result: Result<usize, BrotliEncoderThreadError<Panic>>)
    requires
        old(alloc_per_thread)@.len() > 0,
        forall|i: int|
            0 <= i < old(alloc_per_thread)@.len() - 1 ==> (#[trigger] old(
                alloc_per_thread,
            )@[i]).0 is Join,
        old(alloc_per_thread)@.last().0 is SpawningOrJoining,
    ensures
        final(alloc_per_thread)@.len() == old(alloc_per_thread)@.len(),
        exists|results: Seq<Joined<Alloc, Panic>>| #[trigger]
            ends_with(cat, results, result) && joined_from(
                results,
                old(alloc_per_thread)@,
                last,
                final(alloc_per_thread)@,
            ),
{
    let num_threads: usize = alloc_per_thread.len();
    let mut merge: Merge<Alloc, Panic> = Merge::new();
    let mut current = cat;
    let mut index: usize = 0;
    let ghost mut results: Seq<Joined<Alloc, Panic>> = Seq::empty();
    let ghost mut events: Seq<ChunkEvent<Panic>> = Seq::empty();
    let ghost mut cats: Seq<Cat> = seq![cat];
    while index + 1 < num_threads
        invariant
            0 < num_threads,
            num_threads == alloc_per_thread@.len(),
            num_threads == old(alloc_per_thread)@.len(),
            index < num_threads,
            forall|i: int|
                0 <= i < num_threads - 1 ==> (#[trigger] old(alloc_per_thread)@[i]).0 is Join,
            forall|i: int|
                index <= i < num_threads ==> #[trigger] alloc_per_thread@[i] == old(
                    alloc_per_thread,
                )@[i],
            forall|i: int| 0 <= i < index ==> (#[trigger] alloc_per_thread@[i]).0 is SpawningOrJoining,
            results.len() == index,
            forall|i: int|
                0 <= i < index ==> call_ensures(
                    Join::join,
                    (old(alloc_per_thread)@[i].0->Join_0,),
                    #[trigger] results[i],
                ),
            is_course(cats, events, results),
            cats[0] == cat,
            cats.last() == current,
            merge.pending_error == after_all(events),
            merge.returned@ == results.map_values(|joined: Joined<Alloc, Panic>| allocator_of(joined)),
        decreases num_threads - index,
    {
        assert(old(alloc_per_thread)@[index as int].0 is Join);
        let joined = join_slot(&mut alloc_per_thread[index]);
        let (next, event) = merge.absorb(joined, current);
        current = next;
        proof {
            lemma_course_push(cats, events, results, current, event@, joined);
            cats = cats.push(current);
            events = events.push(event@);
            let more = results.push(joined);
            assert(more.map_values(|joined: Joined<Alloc, Panic>| allocator_of(joined))
                =~= results.map_values(|joined: Joined<Alloc, Panic>| allocator_of(joined)).push(
                allocator_of(joined),
            ));
            results = more;
        }
        index += 1;
    }
    let joined = last_result(last);
    let (next, event) = merge.absorb(joined, current);
    proof {
        lemma_course_push(cats, events, results, next, event@, joined);
        cats = cats.push(next);
        events = events.push(event@);
        let more = results.push(joined);
        assert(more.map_values(|joined: Joined<Alloc, Panic>| allocator_of(joined))
            =~= results.map_values(|joined: Joined<Alloc, Panic>| allocator_of(joined)).push(
            allocator_of(joined),
        ));
        results = more;
        assert(old(alloc_per_thread)@[num_threads - 1] == old(alloc_per_thread)@.last());
    }
    let result = merge.finish(next);
    let mut returned = merge.returned;
    let mut left: usize = num_threads;
    while left > 0
        invariant
            left <= num_threads,
            num_threads == alloc_per_thread@.len(),
            num_threads == results.len(),
            returned@ == results.map_values(
                |joined: Joined<Alloc, Panic>| allocator_of(joined),
            ).take(left as int),
            forall|i: int| 0 <= i < left ==> (#[trigger] alloc_per_thread@[i]).0 is SpawningOrJoining,
            forall|i: int|
                left <= i < num_threads ==> settled_slot(
                    #[trigger] alloc_per_thread@[i],
                    results[i],
                ),
        decreases left,
    {
        let ghost allocators = results.map_values(
            |joined: Joined<Alloc, Panic>| allocator_of(joined),
        );
        let alloc = returned.pop();
        left -= 1;
        assert(returned@ =~= allocators.take(left as int));
        match alloc {
            Some(Some(alloc)) => {
                alloc_per_thread[left].give_back(alloc, ExtraInput::default());
            },
            _ => {},
        }
    }
    proof {
        let (finished, size) = choose|finished: BroCatliResult, size: usize|
            finishes(cats.last(), after_all(events), finished, size) && result
                == #[trigger] outcome(after_all(events), finished, size);
        assert(is_course(cats, events, results) && result == outcome(
            after_all(events),
            finished,
            size,
        ));
        assert(ends_with(cat, results, result));
    }
    result
}

/// Ends compressing an input that the threads share. The threads of all slots but the last are waited
/// for; the chunk of the last was compressed here, with the result `last`. The chunks are put together
/// in order, every slot gets its allocator back, and the input goes back to its owner. Whatever goes
/// wrong, no thread is left running.
pub fn CompressMulti<
    Input: Send + 'static,
    ExtraInput: Default,
    Alloc: Send + 'static,
    Panic: Send + 'static,
    Join: Joinable<CompressionThreadResult<Alloc, Panic>, BrotliEncoderThreadError<Panic>>,
    Shared: OwnedRetriever<(Input, BrotliEncoderParams)>,
    Cat: Catenator,
>(
    owned_input: &mut Owned<Input>,
    alloc_per_thread: &mut [SendAlloc<
        CompressionThreadResult<Alloc, Panic>,
        ExtraInput,
        Alloc,
        Join,
    >],
    last: Result<CompressionThreadResult<Alloc, Panic>, ()>,
    shared: Shared,
    cat: Cat,
) -> (result: Result<usize, BrotliEncoderThreadError<Panic>>)
    requires
        old(alloc_per_thread)@.len() > 0,
        forall|i: int|
            0 <= i < old(alloc_per_thread)@.len() - 1 ==> (#[trigger] old(
                alloc_per_thread,
            )@[i]).0 is Join,
        old(alloc_per_thread)@.last().0 is SpawningOrJoining,
    ensures
        final(alloc_per_thread)@.len() == old(alloc_per_thread)@.len(),
        exists|
            results: Seq<Joined<Alloc, Panic>>,
            merged: Result<usize, BrotliEncoderThreadError<Panic>>,
            retrieved: Result<(Input, BrotliEncoderParams), ()>,
        |
            {
                &&& #[trigger] ends_with(cat, results, merged)
                &&& joined_from(
                    results,
                    old(alloc_per_thread)@,
                    last,
                    final(alloc_per_thread)@,
                )
                &&& call_ensures(Shared::unwrap, (shared,), retrieved)
                &&& #[trigger] input_returned(
                    *old(owned_input),
                    retrieved_input(retrieved),
                    *final(owned_input),
                )
                &&& result == with_input(merged, retrieved is Ok)
            },
{
    let merged = merge_threads(alloc_per_thread, last, cat);
    let retrieved = shared.unwrap();
    let ghost was_retrieved = retrieved;
    let ghost was_merged = merged;
    let input = match retrieved {
        Ok(pair) => Ok(pair.0),
        Err(_) => Err(()),
    };
    let result = return_input(owned_input, input, merged);
    proof {
        let results = choose|results: Seq<Joined<Alloc, Panic>>| #[trigger]
            ends_with(cat, results, was_merged) && joined_from(
                results,
                old(alloc_per_thread)@,
                last,
                alloc_per_thread@,
            );
        assert(ends_with(cat, results, was_merged));
        assert(input_returned(
            *old(owned_input),
            retrieved_input(was_retrieved),
            *owned_input,
        ));
    }
    result
}

/// The input out of what the threads shared.
pub open spec fn retrieved_input<Input>(
    retrieved: Result<(Input, BrotliEncoderParams), ()>,
) -> Result<Input, ()> {
    match retrieved {
        Ok(pair) => Ok(pair.0),
        Err(_) => Err(()),
    }
}

/// An owner has its input back, if that could be had.
pub open spec fn input_returned<Input>(
    before: Owned<Input>,
    retrieved: Result<Input, ()>,
    after: Owned<Input>,
) -> bool {
    match retrieved {
        Ok(input) => after.0 == super::owned::InternalOwned::Item(input),
        Err(_) => after == before,
    }
}

/// A result once the input is back, or is not: without it, what would have been a success is one no
/// more.
pub open spec fn with_input<Panic>(
    result: Result<usize, BrotliEncoderThreadError<Panic>>,
    is_back: bool,
) -> Result<usize, BrotliEncoderThreadError<Panic>> {
    if is_back || result is Err {
        result
    } else {
        Err(BrotliEncoderThreadError::OtherThreadPanic)
    }
}

/// The threads of all slots but the last had these results, the last chunk had the last one, and the
/// slots have what the threads brought back.
pub open spec fn joined_from<
    ExtraInput: Default,
    Alloc: Send + 'static,
    Panic: Send + 'static,
    Join: Joinable<CompressionThreadResult<Alloc, Panic>, BrotliEncoderThreadError<Panic>>,
>(
    results: Seq<Joined<Alloc, Panic>>,
    before: Seq<SendAlloc<CompressionThreadResult<Alloc, Panic>, ExtraInput, Alloc, Join>>,
    last: Result<CompressionThreadResult<Alloc, Panic>, ()>,
    after: Seq<SendAlloc<CompressionThreadResult<Alloc, Panic>, ExtraInput, Alloc, Join>>,
) -> bool {
    &&& results.len() == before.len()
    &&& forall|i: int|
        0 <= i < results.len() - 1 ==> call_ensures(
            Join::join,
            (before[i].0->Join_0,),
            #[trigger] results[i],
        )
    &&& results.last() == spec_last_result(last)
    &&& forall|i: int| 0 <= i < after.len() ==> settled_slot(#[trigger] after[i], results[i])
}

/// Puts the chunks that the threads of a scope have left in their slots together in order, and gives
/// every thread's allocator back, but for those of the threads that panicked.
pub fn CompressMultiScoped<Alloc, Panic, Cat: Catenator>(
    alloc_per_thread: &mut [Option<Alloc>],
    results: Vec<Option<CompressionThreadResult<Alloc, Panic>>>,
    cat: Cat,
) -> (result: Result<usize, BrotliEncoderThreadError<Panic>>)
    requires
        old(alloc_per_thread)@.len() > 0,
        results@.len() == old(alloc_per_thread)@.len(),
    ensures
        ends_with(cat, slot_results(results@), result),
        final(alloc_per_thread)@ == Seq::new(
            results@.len(),
            |i: int|
                match results@[i] {
                    Some(left) => Some(left.alloc),
                    None => old(alloc_per_thread)@[i],
                },
        ),
{
    let ghost joined_results = slot_results(results@);
    let num_threads: usize = results.len();
    let mut slots = results;
    let mut merge: Merge<Alloc, Panic> = Merge::new();
    let mut current = cat;
    let mut index: usize = 0;
    let ghost mut events: Seq<ChunkEvent<Panic>> = Seq::empty();
    let ghost mut cats: Seq<Cat> = seq![cat];
    assert(joined_results.take(0) =~= Seq::empty());
    while index < num_threads
        invariant
            index <= num_threads,
            num_threads == slots@.len(),
            num_threads == results@.len(),
            joined_results == slot_results(results@),
            forall|i: int| index <= i < num_threads ==> #[trigger] slots@[i] == results@[i],
            is_course(cats, events, joined_results.take(index as int)),
            cats[0] == cat,
            cats.last() == current,
            merge.pending_error == after_all(events),
            merge.returned@ == Seq::new(
                index as nat,
                |i: int| allocator_of(spec_slot_result(results@[i])),
            ),
        decreases num_threads - index,
    {
        let joined = slot_result(slots[index].take());
        let (next, event) = merge.absorb(joined, current);
        current = next;
        proof {
            lemma_course_push(
                cats,
                events,
                joined_results.take(index as int),
                current,
                event@,
                joined,
            );
            cats = cats.push(current);
            events = events.push(event@);
            assert(joined_results.take(index + 1) =~= joined_results.take(index as int).push(
                joined,
            ));
            assert(merge.returned@ =~= Seq::new(
                (index + 1) as nat,
                |i: int| allocator_of(spec_slot_result(results@[i])),
            ));
        }
        index += 1;
    }
    assert(joined_results.take(index as int) =~= joined_results);
    let result = merge.finish(current);
    let mut returned = merge.returned;
    index = 0;
    while index < num_threads
        invariant
            index <= num_threads,
            num_threads == results@.len(),
            alloc_per_thread@.len() == num_threads,
            alloc_per_thread@.len() == old(alloc_per_thread)@.len(),
            returned@.len() == num_threads,
            forall|i: int|
                index <= i < num_threads ==> #[trigger] returned@[i] == allocator_of(
                    spec_slot_result(results@[i]),
                ),
            forall|i: int|
                0 <= i < num_threads ==> #[trigger] alloc_per_thread@[i] == if i < index {
                    match results@[i] {
                        Some(left) => Some(left.alloc),
                        None => old(alloc_per_thread)@[i],
                    }
                } else {
                    old(alloc_per_thread)@[i]
                },
        decreases num_threads - index,
    {
        match returned[index].take() {
            Some(alloc) => {
                alloc_per_thread[index] = Some(alloc);
            },
            None => {},
        }
        index += 1;
    }
    proof {
        let (finished, size) = choose|finished: BroCatliResult, size: usize|
            finishes(cats.last(), after_all(events), finished, size) && result
                == #[trigger] outcome(after_all(events), finished, size);
        assert(is_course(cats, events, joined_results) && result == outcome(
            after_all(events),
            finished,
            size,
        ));
        assert(ends_with(cat, joined_results, result));
        assert(alloc_per_thread@ =~= Seq::new(
            results@.len(),
            |i: int|
                match results@[i] {
                    Some(left) => Some(left.alloc),
                    None => old(alloc_per_thread)@[i],
                },
        ));
    }
    result
}

/// A thread that was lost, or a chunk that could not be compressed, lets the whole fail: it succeeds
/// only if every thread brought a compressed chunk back.
pub proof fn lemma_success_needs_every_chunk<Cat: Catenator, Alloc, Panic>(
    cat: Cat,
    results: Seq<Joined<Alloc, Panic>>,
    size: usize,
    i: int,
)
    requires
        ends_with(cat, results, Ok::<usize, BrotliEncoderThreadError<Panic>>(size)),
        0 <= i < results.len(),
    ensures
        results[i] matches Ok(result) && result.compressed is Ok,
{
    let success = Ok::<usize, BrotliEncoderThreadError<Panic>>(size);
    let (cats, events, finished, out_file_size) = choose|
        cats: Seq<Cat>,
        events: Seq<ChunkEvent<Panic>>,
        finished: BroCatliResult,
        out_file_size: usize,
    |
        {
            &&& #[trigger] is_course(cats, events, results)
            &&& cats[0] == cat
            &&& finishes(cats.last(), after_all(events), finished, out_file_size)
            &&& success == #[trigger] outcome(after_all(events), finished, out_file_size)
        };
    assert(comes_of(events[i], results[i], after_all(events.take(i))));
    if events[i].error() is Some {
        let k = lemma_some_first_error(events, i);
        lemma_first_error_stays(events, k);
    }
}

proof fn lemma_some_first_error<Panic>(events: Seq<ChunkEvent<Panic>>, i: int) -> (k: int)
    requires
        0 <= i < events.len(),
        events[i].error() is Some,
    ensures
        is_first_error(events, k),
    decreases i,
{
    if exists|j: int| 0 <= j < i && (#[trigger] events[j]).error() is Some {
        let j = choose|j: int| 0 <= j < i && (#[trigger] events[j]).error() is Some;
        lemma_some_first_error(events, j)
    } else {
        i
    }
}

/// What the calls of a catenator give depends on nothing but what they are given.
pub open spec fn is_deterministic<Cat: Catenator>() -> bool {
    &&& forall|cat: Cat, a: Cat, b: Cat| #[trigger]
        call_ensures(Cat::new_brotli_file, (cat,), a) && #[trigger] call_ensures(
            Cat::new_brotli_file,
            (cat,),
            b,
        ) ==> a == b
    &&& forall|cat: Cat, x: &[u8], y: &[u8], a: (Cat, BroCatliResult), b: (Cat, BroCatliResult)|
        #[trigger] call_ensures(Cat::stream, (cat, x), a) && #[trigger] call_ensures(
            Cat::stream,
            (cat, y),
            b,
        ) && x@ == y@ ==> a == b
    &&& forall|cat: Cat, a: (BroCatliResult, usize), b: (BroCatliResult, usize)| #[trigger]
        call_ensures(Cat::finish, (cat,), a) && #[trigger] call_ensures(Cat::finish, (cat,), b)
            ==> a == b
}

/// Two threads brought the same back, but for their allocators: the same compressed bytes, or the same
/// error.
pub open spec fn brought_alike<Alloc, Panic>(
    joined: Joined<Alloc, Panic>,
    other: Joined<Alloc, Panic>,
) -> bool {
    match (joined, other) {
        (Ok(a), Ok(b)) => match (a.compressed, b.compressed) {
            (Ok(chunk), Ok(same)) => chunk.spec_bytes() == same.spec_bytes(),
            (Err(e), Err(same)) => e == same,
            _ => false,
        },
        (Err(e), Err(same)) => e == same,
        _ => false,
    }
}

/// Two rows of threads brought the same back, but for their allocators.
pub open spec fn all_alike<Alloc, Panic>(
    results: Seq<Joined<Alloc, Panic>>,
    others: Seq<Joined<Alloc, Panic>>,
) -> bool {
    &&& results.len() == others.len()
    &&& forall|i: int| 0 <= i < results.len() ==> brought_alike(#[trigger] results[i], others[i])
}

/// Two courses that start alike, with threads that bring the same, are alike up to chunk `k`.
proof fn lemma_courses_agree<Cat: Catenator, Alloc, Panic>(
    cats: Seq<Cat>,
    events: Seq<ChunkEvent<Panic>>,
    results: Seq<Joined<Alloc, Panic>>,
    other_cats: Seq<Cat>,
    other_events: Seq<ChunkEvent<Panic>>,
    others: Seq<Joined<Alloc, Panic>>,
    k: int,
)
    requires
        is_deterministic::<Cat>(),
        all_alike(results, others),
        is_course(cats, events, results),
        is_course(other_cats, other_events, others),
        cats[0] == other_cats[0],
        0 <= k <= results.len(),
    ensures
        events.take(k) == other_events.take(k),
        cats[k] == other_cats[k],
    decreases k,
{
    if k > 0 {
        let i = k - 1;
        lemma_courses_agree(cats, events, results, other_cats, other_events, others, i);
        assert(brought_alike(results[i], others[i]));
        assert(comes_of(events[i], results[i], after_all(events.take(i))));
        assert(comes_of(other_events[i], others[i], after_all(other_events.take(i))));
        assert(takes_in(cats[i], results[i], events[i], cats[i + 1]));
        assert(takes_in(other_cats[i], others[i], other_events[i], other_cats[i + 1]));
        assert(events[i] == other_events[i]);
        assert(events.take(k) =~= events.take(i).push(events[i]));
        assert(other_events.take(k) =~= other_events.take(i).push(other_events[i]));
    }
}

/// The chunks are put together alike: every course from `cat` on goes through the same wholes, byte for
/// byte what the catenator holds, and through the same events.
pub open spec fn same_courses<Cat: Catenator, Alloc, Panic>(
    cat: Cat,
    results: Seq<Joined<Alloc, Panic>>,
    others: Seq<Joined<Alloc, Panic>>,
) -> bool {
    forall|
        cats: Seq<Cat>,
        events: Seq<ChunkEvent<Panic>>,
        other_cats: Seq<Cat>,
        other_events: Seq<ChunkEvent<Panic>>,
    |
        #[trigger] is_course(cats, events, results) && #[trigger] is_course(
            other_cats,
            other_events,
            others,
        ) && cats[0] == cat && other_cats[0] == cat ==> cats == other_cats && events
            == other_events
}

/// Threads that bring the same have their chunks put together alike.
pub proof fn lemma_same_courses<Cat: Catenator, Alloc, Panic>(
    cat: Cat,
    results: Seq<Joined<Alloc, Panic>>,
    others: Seq<Joined<Alloc, Panic>>,
)
    requires
        is_deterministic::<Cat>(),
        all_alike(results, others),
    ensures
        same_courses(cat, results, others),
{
    assert forall|
        cats: Seq<Cat>,
        events: Seq<ChunkEvent<Panic>>,
        other_cats: Seq<Cat>,
        other_events: Seq<ChunkEvent<Panic>>,
    |
        #[trigger] is_course(cats, events, results) && #[trigger] is_course(
            other_cats,
            other_events,
            others,
        ) && cats[0] == cat && other_cats[0] == cat implies cats == other_cats && events
        == other_events by {
        let n = results.len() as int;
        assert forall|k: int| 0 <= k <= n implies cats[k] == other_cats[k] by {
            lemma_courses_agree(cats, events, results, other_cats, other_events, others, k);
        }
        assert(cats =~= other_cats);
        lemma_courses_agree(cats, events, results, other_cats, other_events, others, n);
        assert(events.take(n) =~= events);
        assert(other_events.take(n) =~= other_events);
    }
}

/// What is put together, and how compressing ends, depends on nothing but what the threads brought back,
/// and not on their allocators: it makes no difference whether they shared the input or borrowed it.
pub proof fn lemma_ends_alike<Cat: Catenator, Alloc, Panic>(
    cat: Cat,
    results: Seq<Joined<Alloc, Panic>>,
    result: Result<usize, BrotliEncoderThreadError<Panic>>,
    others: Seq<Joined<Alloc, Panic>>,
    other: Result<usize, BrotliEncoderThreadError<Panic>>,
)
    requires
        is_deterministic::<Cat>(),
        all_alike(results, others),
        ends_with(cat, results, result),
        ends_with(cat, others, other),
    ensures
        result == other,
        same_courses(cat, results, others),
{
    let (cats, events, finished, size) = choose|
        cats: Seq<Cat>,
        events: Seq<ChunkEvent<Panic>>,
        finished: BroCatliResult,
        size: usize,
    |
        {
            &&& #[trigger] is_course(cats, events, results)
            &&& cats[0] == cat
            &&& finishes(cats.last(), after_all(events), finished, size)
            &&& result == #[trigger] outcome(after_all(events), finished, size)
        };
    let (other_cats, other_events, other_finished, other_size) = choose|
        cats: Seq<Cat>,
        events: Seq<ChunkEvent<Panic>>,
        finished: BroCatliResult,
        size: usize,
    |
        {
            &&& #[trigger] is_course(cats, events, others)
            &&& cats[0] == cat
            &&& finishes(cats.last(), after_all(events), finished, size)
            &&& other == #[trigger] outcome(after_all(events), finished, size)
        };
    lemma_same_courses(cat, results, others);
    assert(cats == other_cats && events == other_events);
}

/// What the threads of a scope have left in their slots, as results.
pub open spec fn slot_results<Alloc, Panic>(
    slots: Seq<Option<CompressionThreadResult<Alloc, Panic>>>,
) -> Seq<Joined<Alloc, Panic>> {
    slots.map_values(|slot: Option<CompressionThreadResult<Alloc, Panic>>| spec_slot_result(slot))
}

/// [`CompressMulti`] and [`CompressMultiScoped`] put the same together and end alike where every thread
/// brings what the slot of its chunk holds, and the input can be had back.
pub proof fn lemma_shared_and_scoped_end_alike<
    ExtraInput: Default,
    Alloc: Send + 'static,
    Panic: Send + 'static,
    Join: Joinable<CompressionThreadResult<Alloc, Panic>, BrotliEncoderThreadError<Panic>>,
    Cat: Catenator,
>(
    cat: Cat,
    results: Seq<Joined<Alloc, Panic>>,
    before: Seq<SendAlloc<CompressionThreadResult<Alloc, Panic>, ExtraInput, Alloc, Join>>,
    last: Result<CompressionThreadResult<Alloc, Panic>, ()>,
    after: Seq<SendAlloc<CompressionThreadResult<Alloc, Panic>, ExtraInput, Alloc, Join>>,
    merged: Result<usize, BrotliEncoderThreadError<Panic>>,
    slots: Seq<Option<CompressionThreadResult<Alloc, Panic>>>,
    scoped: Result<usize, BrotliEncoderThreadError<Panic>>,
)
    requires
        is_deterministic::<Cat>(),
        ends_with(cat, results, merged),
        joined_from(results, before, last, after),
        ends_with(cat, slot_results(slots), scoped),
        slots.len() == before.len(),
        slots.len() > 0,
        forall|i: int, joined: Joined<Alloc, Panic>|
            0 <= i < slots.len() - 1 && #[trigger] call_ensures(
                Join::join,
                (before[i].0->Join_0,),
                joined,
            ) ==> brought_alike(joined, spec_slot_result(slots[i])),
        brought_alike(spec_last_result(last), spec_slot_result(slots.last())),
    ensures
        with_input(merged, true) == scoped,
        same_courses(cat, results, slot_results(slots)),
{
    let others = slot_results(slots);
    assert forall|i: int| 0 <= i < results.len() implies brought_alike(
        #[trigger] results[i],
        others[i],
    ) by {
        if i < results.len() - 1 {
            assert(call_ensures(Join::join, (before[i].0->Join_0,), results[i]));
        }
    }
    lemma_ends_alike(cat, results, merged, others, scoped);
}

/// A chunk that is compressed to `bytes`, or fails.
pub open spec fn is_compressed_to<Alloc, Panic>(
    joined: Joined<Alloc, Panic>,
    bytes: Result<Seq<u8>, BrotliEncoderThreadError<Panic>>,
) -> bool {
    joined matches Ok(result) && match (result.compressed, bytes) {
        (Ok(chunk), Ok(bytes)) => chunk.spec_bytes() == bytes,
        (Err(e), Err(same)) => e == same,
        _ => false,
    }
}

/// Every thread compressed its chunk of `input`: what comes of a chunk is what `compress` makes of its
/// work.
pub open spec fn all_compressed<Alloc, Panic>(
    results: Seq<Joined<Alloc, Panic>>,
    input: Seq<u8>,
    params: BrotliEncoderParams,
    compress: spec_fn(ChunkWork) -> Result<Seq<u8>, BrotliEncoderThreadError<Panic>>,
) -> bool {
    forall|i: int|
        0 <= i < results.len() ==> is_compressed_to(
            #[trigger] results[i],
            compress(chunk_work(input, params, results.len() as int, i)),
        )
}

/// The same input, with the same parameters and in as many chunks, is put together alike and ends alike
/// however the threads are run, if an encoder makes the same of the same work.
pub proof fn lemma_same_input_ends_alike<Cat: Catenator, Alloc, Panic>(
    cat: Cat,
    input: Seq<u8>,
    params: BrotliEncoderParams,
    compress: spec_fn(ChunkWork) -> Result<Seq<u8>, BrotliEncoderThreadError<Panic>>,
    results: Seq<Joined<Alloc, Panic>>,
    result: Result<usize, BrotliEncoderThreadError<Panic>>,
    others: Seq<Joined<Alloc, Panic>>,
    other: Result<usize, BrotliEncoderThreadError<Panic>>,
)
    requires
        is_deterministic::<Cat>(),
        results.len() == others.len(),
        all_compressed(results, input, params, compress),
        all_compressed(others, input, params, compress),
        ends_with(cat, results, result),
        ends_with(cat, others, other),
    ensures
        result == other,
        same_courses(cat, results, others),
{
    assert forall|i: int| 0 <= i < results.len() implies brought_alike(
        #[trigger] results[i],
        others[i],
    ) by {
        let work = chunk_work(input, params, results.len() as int, i);
        assert(is_compressed_to(results[i], compress(work)));
        assert(is_compressed_to(others[i], compress(work)));
    }
    lemma_ends_alike(cat, results, result, others, other);
}

/// A slice comes out as an owned input with the same bytes does: the same is put together, and it ends
/// alike.
pub proof fn lemma_slice_ends_as_owned<Cat: Catenator, Alloc, Panic>(
    cat: Cat,
    from_slice: Owned<Vec<u8>>,
    owned: Owned<Vec<u8>>,
    params: BrotliEncoderParams,
    compress: spec_fn(ChunkWork) -> Result<Seq<u8>, BrotliEncoderThreadError<Panic>>,
    results: Seq<Joined<Alloc, Panic>>,
    result: Result<usize, BrotliEncoderThreadError<Panic>>,
    others: Seq<Joined<Alloc, Panic>>,
    other: Result<usize, BrotliEncoderThreadError<Panic>>,
)
    requires
        is_deterministic::<Cat>(),
        owned_bytes(from_slice) == owned_bytes(owned),
        owned_bytes(owned) is Some,
        results.len() == others.len(),
        all_compressed(results, owned_bytes(from_slice)->0, params, compress),
        all_compressed(others, owned_bytes(owned)->0, params, compress),
        ends_with(cat, results, result),
        ends_with(cat, others, other),
    ensures
        result == other,
        same_courses(cat, results, others),
{
    lemma_same_input_ends_alike(
        cat,
        owned_bytes(owned)->0,
        params,
        compress,
        results,
        result,
        others,
        other,
    );
}

/// Waits for the thread of a slot. The slot stays empty until the allocator is given back.
pub fn join_slot<
    ExtraInput,
    Alloc: Send + 'static,
    Panic: Send + 'static,
    Join: Joinable<CompressionThreadResult<Alloc, Panic>, BrotliEncoderThreadError<Panic>>,
>(
    slot: &mut SendAlloc<CompressionThreadResult<Alloc, Panic>, ExtraInput, Alloc, Join>,
) -> (joined: Joined<Alloc, Panic>)
    requires
        old(slot).0 is Join,
    ensures
        final(slot).0 is SpawningOrJoining,
        call_ensures(Join::join, (old(slot).0->Join_0,), joined),
{
    match slot.take_join() {
        Some(join) => join.join(),
        None => vstd::pervasive::unreached(),
    }
}

/// What is reported where the hasher could not be fed: the error of the last thread that was lost
/// while those that run were waited for, or that some thread panicked where none was.
pub open spec fn setup_error<Panic>(lost: Seq<Option<BrotliEncoderThreadError<Panic>>>) -> BrotliEncoderThreadError<
    Panic,
>
    decreases lost.len(),
{
    if lost.len() == 0 {
        BrotliEncoderThreadError::OtherThreadPanic
    } else {
        match lost.last() {
            Some(e) => e,
            None => setup_error(lost.drop_last()),
        }
    }
}

/// Why a thread was lost, if one was waited for and it was.
pub open spec fn lost_error<Alloc, Panic>(waited: Option<Joined<Alloc, Panic>>) -> Option<
    BrotliEncoderThreadError<Panic>,
> {
    match waited {
        Some(Err(e)) => Some(e),
        _ => None,
    }
}

/// What waiting for the threads that run does to a slot: one with a thread has what that brought back,
/// one without is as it was.
pub open spec fn abandoned_slot<
    ExtraInput: Default,
    Alloc: Send + 'static,
    Panic: Send + 'static,
    Join: Joinable<CompressionThreadResult<Alloc, Panic>, BrotliEncoderThreadError<Panic>>,
>(
    before: SendAlloc<CompressionThreadResult<Alloc, Panic>, ExtraInput, Alloc, Join>,
    waited: Option<Joined<Alloc, Panic>>,
    after: SendAlloc<CompressionThreadResult<Alloc, Panic>, ExtraInput, Alloc, Join>,
) -> bool {
    match waited {
        Some(joined) => {
            &&& before.0 is Join
            &&& call_ensures(Join::join, (before.0->Join_0,), joined)
            &&& settled_slot(after, joined)
        },
        None => before.0 !is Join && after == before,
    }
}

/// Gives up after the hasher could not be fed: waits for every thread that runs, lets its chunk go and
/// gives its slot the allocator back. Tells what to report.
pub fn abandon<
    ExtraInput: Default,
    Alloc: Send + 'static,
    Panic: Send + 'static,
    Join: Joinable<CompressionThreadResult<Alloc, Panic>, BrotliEncoderThreadError<Panic>>,
>(
    alloc_per_thread: &mut [SendAlloc<
        CompressionThreadResult<Alloc, Panic>,
        ExtraInput,
        Alloc,
        Join,
    >],
) -> (error: BrotliEncoderThreadError<Panic>)
    ensures
        final(alloc_per_thread)@.len() == old(alloc_per_thread)@.len(),
        exists|waited: Seq<Option<Joined<Alloc, Panic>>>|
            #![trigger waited.len()]
            {
                &&& waited.len() == old(alloc_per_thread)@.len()
                &&& forall|i: int|
                    0 <= i < waited.len() ==> abandoned_slot(
                        old(alloc_per_thread)@[i],
                        #[trigger] waited[i],
                        final(alloc_per_thread)@[i],
                    )
                &&& error == setup_error(
                    waited.map_values(|w: Option<Joined<Alloc, Panic>>| lost_error(w)),
                )
            },
{
    let mut error: BrotliEncoderThreadError<Panic> = BrotliEncoderThreadError::OtherThreadPanic;
    let ghost mut waited: Seq<Option<Joined<Alloc, Panic>>> = Seq::empty();
    let mut index: usize = 0;
    while index < alloc_per_thread.len()
        invariant
            alloc_per_thread@.len() == old(alloc_per_thread)@.len(),
            index <= alloc_per_thread@.len(),
            waited.len() == index,
            error == setup_error(
                waited.map_values(|w: Option<Joined<Alloc, Panic>>| lost_error(w)),
            ),
            forall|i: int|
                index <= i < alloc_per_thread@.len() ==> #[trigger] alloc_per_thread@[i] == old(
                    alloc_per_thread,
                )@[i],
            forall|i: int|
                0 <= i < index ==> abandoned_slot(
                    old(alloc_per_thread)@[i],
                    #[trigger] waited[i],
                    alloc_per_thread@[i],
                ),
        decreases alloc_per_thread@.len() - index,
    {
        let ghost before = waited;
        match alloc_per_thread[index].take_join() {
            Some(join) => {
                let joined = join.join();
                proof {
                    waited = waited.push(Some(joined));
                }
                match joined {
                    Ok(result) => {
                        alloc_per_thread[index].give_back(result.alloc, ExtraInput::default());
                    },
                    Err(join_error) => {
                        error = join_error;
                    },
                }
            },
            None => {
                proof {
                    waited = waited.push(None);
                }
            },
        }
        assert(waited.map_values(
            |w: Option<Joined<Alloc, Panic>>| lost_error(w),
        ).drop_last() =~= before.map_values(|w: Option<Joined<Alloc, Panic>>| lost_error(w)));
        index += 1;
    }
    error
}

/// Gives an input that was lent out back to its owner, if it can be had.
pub fn return_input<Input, Panic>(
    owned_input: &mut Owned<Input>,
    retrieved: Result<Input, ()>,
    result: Result<usize, BrotliEncoderThreadError<Panic>>,
) -> (returned: Result<usize, BrotliEncoderThreadError<Panic>>)
    ensures
        input_returned(*old(owned_input), retrieved, *final(owned_input)),
        returned == with_input(result, retrieved is Ok),
{
    match retrieved {
        Ok(input) => {
            *owned_input = Owned::new(input);
            result
        },
        Err(_) => match result {
            Ok(_) => Err(BrotliEncoderThreadError::OtherThreadPanic),
            Err(e) => Err(e),
        },
    }
}

} // verus!
