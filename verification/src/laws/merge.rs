//! Laws of putting the chunks of an input together.
use crate::params::BrotliEncoderParams;
use crate::threading::merge::{
    abandon, after_all, comes_of, ends_with, is_course, join_slot, last_result,
    lemma_first_error_decides, outcome, puts_behind, return_input, set_pending_error, slot_result,
    slot_results, takes_in, Catenator, ChunkEvent, CompressMulti, CompressMultiScoped, Joined,
    Merge,
};
use crate::threading::owned::{
    BroCatliResult, BrotliEncoderThreadError, CompressedFileChunk, CompressionThreadResult,
    InternalOwned, InternalSendAlloc, Joinable, Owned, OwnedRetriever, SendAlloc,
};
use vstd::prelude::*;

verus! {

/// Putting a stream behind the others worked.
pub open spec fn worked(result: BroCatliResult) -> bool {
    result is Success || result is NeedsMoreInput
}

/// Another stream is begun and `bytes` are put behind what is there.
pub open spec fn streamed<Cat: Catenator>(
    before: Cat,
    bytes: Seq<u8>,
    after: Cat,
    result: BroCatliResult,
) -> bool {
    exists|fresh: Cat, given: &[u8]|
        {
            &&& #[trigger] call_ensures(Cat::new_brotli_file, (before,), fresh)
            &&& given@ == bytes
            &&& #[trigger] call_ensures(Cat::stream, (fresh, given), (after, result))
        }
}

/// The compressed bytes that a thread brought, if it did.
pub open spec fn brought<Alloc, Panic>(joined: Joined<Alloc, Panic>) -> Option<Seq<u8>> {
    match joined {
        Ok(result) => match result.compressed {
            Ok(chunk) => Some(chunk.spec_bytes()),
            Err(_) => None,
        },
        Err(_) => None,
    }
}

/// Chunk `j` was put behind the others, and that worked.
pub open spec fn joined_on<Cat: Catenator, Alloc, Panic>(
    cats: Seq<Cat>,
    results: Seq<Joined<Alloc, Panic>>,
    j: int,
) -> bool {
    brought(results[j]) matches Some(bytes) && exists|result: BroCatliResult|
        #[trigger] streamed(cats[j], bytes, cats[j + 1], result) && worked(result)
}

/// Why putting a chunk behind the others failed.
pub open spec fn failure<Panic>(result: BroCatliResult) -> BrotliEncoderThreadError<Panic> {
    if result is NeedsMoreOutput {
        BrotliEncoderThreadError::InsufficientOutputSpace
    } else {
        BrotliEncoderThreadError::ConcatenationError(result)
    }
}

/// How the whole ends on account of chunk `k`, the chunks before it being in place.
pub open spec fn fails_at<Cat: Catenator, Alloc, Panic>(
    cats: Seq<Cat>,
    results: Seq<Joined<Alloc, Panic>>,
    k: int,
    error: BrotliEncoderThreadError<Panic>,
) -> bool {
    match results[k] {
        Err(e) => error == e,
        Ok(result) => match result.compressed {
            Err(e) => error == e,
            Ok(chunk) => exists|result: BroCatliResult|
                #[trigger] streamed(cats[k], chunk.spec_bytes(), cats[k + 1], result) && !worked(
                    result,
                ) && error == failure::<Panic>(result),
        },
    }
}

/// The whole ends as finishing the stream does: with the size that it tells, or with why it failed.
pub open spec fn ends_as_finished<Cat: Catenator, Panic>(
    cat: Cat,
    result: Result<usize, BrotliEncoderThreadError<Panic>>,
) -> bool {
    exists|finished: BroCatliResult, size: usize|
        #[trigger] call_ensures(Cat::finish, (cat,), (finished, size)) && result
            == if finished is Success {
            Ok::<usize, BrotliEncoderThreadError<Panic>>(size)
        } else {
            Err(BrotliEncoderThreadError::ConcatenationFinalizationError(finished))
        }
}

proof fn lemma_none_pending<Panic>(events: Seq<ChunkEvent<Panic>>, k: int)
    requires
        0 <= k <= events.len(),
        forall|j: int| 0 <= j < k ==> (#[trigger] events[j]).error() is None,
    ensures
        after_all(events.take(k)) is None,
    decreases k,
{
    if k > 0 {
        lemma_none_pending(events, k - 1);
        assert(events.take(k).drop_last() =~= events.take(k - 1));
        assert(events[k - 1].error() is None);
    }
}

proof fn lemma_first_bad<Panic>(events: Seq<ChunkEvent<Panic>>, n: int) -> (k: int)
    requires
        0 <= n <= events.len(),
    ensures
        0 <= k <= n,
        forall|j: int| 0 <= j < k ==> (#[trigger] events[j]).error() is None,
        k < n ==> events[k].error() is Some,
    decreases n,
{
    if n == 0 {
        0
    } else {
        let k = lemma_first_bad(events, n - 1);
        if k < n - 1 || events[n - 1].error() is Some {
            k
        } else {
            n
        }
    }
}

/// The chunks are put one behind the other, in order, each as a stream of its own, until something goes
/// wrong. If nothing does, the stream is finished, and the whole has the size that finishing tells; else
/// it ends with the first error: that of a thread that was lost, of a chunk that could not be compressed,
/// of putting a chunk behind the others, or of finishing.
pub proof fn law_put_together<Cat: Catenator, Alloc, Panic>(
    cat: Cat,
    results: Seq<Joined<Alloc, Panic>>,
    result: Result<usize, BrotliEncoderThreadError<Panic>>,
) -> (course: (Seq<Cat>, int))
    requires
        ends_with(cat, results, result),
    ensures
        ({
            let (cats, k) = course;
            &&& 0 <= k <= results.len()
            &&& cats.len() == results.len() + 1
            &&& cats[0] == cat
            &&& forall|j: int| 0 <= j < k ==> #[trigger] joined_on(cats, results, j)
            &&& k < results.len() ==> result is Err && fails_at(cats, results, k, result->Err_0)
            &&& k == results.len() ==> ends_as_finished(cats.last(), result)
        }),
{
    let (cats, events, finished, size) = choose|
        cats: Seq<Cat>,
        events: Seq<ChunkEvent<Panic>>,
        finished: BroCatliResult,
        size: usize,
    |
        {
            &&& #[trigger] is_course(cats, events, results)
            &&& cats[0] == cat
            &&& crate::threading::merge::finishes(cats.last(), after_all(events), finished, size)
            &&& result == #[trigger] outcome(after_all(events), finished, size)
        };
    let n = events.len() as int;
    let k = lemma_first_bad(events, n);
    assert forall|j: int| 0 <= j < k implies #[trigger] joined_on(cats, results, j) by {
        lemma_none_pending(events, j);
        assert(comes_of(events[j], results[j], after_all(events.take(j))));
        assert(takes_in(cats[j], results[j], events[j], cats[j + 1]));
        assert(events[j].error() is None);
        if let ChunkEvent::Concatenated(r) = events[j] {
            let bytes = brought(results[j])->0;
            assert(puts_behind(cats[j], bytes, cats[j + 1], r));
            assert(streamed(cats[j], bytes, cats[j + 1], r) && worked(r));
        }
    }
    if k < n {
        lemma_none_pending(events, k);
        lemma_first_error_decides(events, k, finished, size);
        assert(comes_of(events[k], results[k], after_all(events.take(k))));
        assert(takes_in(cats[k], results[k], events[k], cats[k + 1]));
        if let ChunkEvent::Concatenated(r) = events[k] {
            let bytes = brought(results[k])->0;
            assert(puts_behind(cats[k], bytes, cats[k + 1], r));
            assert(streamed(cats[k], bytes, cats[k + 1], r) && !worked(r));
        }
    } else {
        lemma_none_pending(events, n);
        assert(events.take(n) =~= events);
        assert(call_ensures(Cat::finish, (cats.last(),), (finished, size)));
        assert(ends_as_finished(cats.last(), result));
    }
    (cats, k)
}

/// Compressing a borrowed input succeeds only if every thread has left a compressed chunk in its slot;
/// then all chunks were put together in order. A slot that is empty means that some thread panicked.
/// Every thread that left something gives its allocator back, and the other places stay.
pub proof fn law_scoped<Alloc, Panic, Cat: Catenator>(
    alloc_per_thread: &mut [Option<Alloc>],
    slots: Vec<Option<CompressionThreadResult<Alloc, Panic>>>,
    cat: Cat,
    result: Result<usize, BrotliEncoderThreadError<Panic>>,
    i: int,
)
    requires
        0 <= i < slots@.len(),
        call_ensures(
            CompressMultiScoped::<Alloc, Panic, Cat>,
            (alloc_per_thread, slots, cat),
            result,
        ),
    ensures
        result is Ok ==> slots@[i] is Some && slots@[i]->0.compressed is Ok,
        slots@[0] is None ==> result == Err::<usize, BrotliEncoderThreadError<Panic>>(
            BrotliEncoderThreadError::OtherThreadPanic,
        ),
        slots@[0] matches Some(left) && left.compressed is Err ==> result == Err::<
            usize,
            BrotliEncoderThreadError<Panic>,
        >(slots@[0]->0.compressed->Err_0),
        final(alloc_per_thread)@.len() == slots@.len(),
        slots@[i] matches Some(left) ==> final(alloc_per_thread)@[i] == Some(left.alloc),
        slots@[i] is None ==> final(alloc_per_thread)@[i] == old(alloc_per_thread)@[i],
        ends_with(cat, slot_results(slots@), result),
        slot_results(slots@).len() == slots@.len(),
        slots@[i] matches Some(left) ==> slot_results(slots@)[i] == Ok::<
            _,
            BrotliEncoderThreadError<Panic>,
        >(left),
        slots@[i] is None ==> slot_results(slots@)[i] == Err::<
            CompressionThreadResult<Alloc, Panic>,
            _,
        >(BrotliEncoderThreadError::<Panic>::OtherThreadPanic),
{
    let results = slot_results(slots@);
    let (cats, k) = law_put_together(cat, results, result);
    if result is Ok {
        assert(k == results.len());
        assert(joined_on(cats, results, i));
    }
    if k > 0 {
        assert(joined_on(cats, results, 0));
    }
}

/// Compressing a shared input succeeds only if the last chunk could be compressed and the input is back
/// with its owner. No thread is left running, and the last slot has the allocator that compressed the last
/// chunk.
pub proof fn law_shared<
    Input: Send + 'static,
    ExtraInput: Default,
    Alloc: Send + 'static,
    Panic: Send + 'static,
    Join: Joinable<CompressionThreadResult<Alloc, Panic>, BrotliEncoderThreadError<Panic>>,
    Shared: OwnedRetriever<(Input, BrotliEncoderParams)>,
    Cat: Catenator,
>(
    owned_input: &mut Owned<Input>,
    alloc_per_thread: &mut [SendAlloc<
        CompressionThreadResult<Alloc, Panic>,
        ExtraInput,
        Alloc,
        Join,
    >],
    last: Result<CompressionThreadResult<Alloc, Panic>, ()>,
    shared: Shared,
    cat: Cat,
    result: Result<usize, BrotliEncoderThreadError<Panic>>,
    i: int,
)
    requires
        0 <= i < old(alloc_per_thread)@.len(),
        call_ensures(
            CompressMulti::<Input, ExtraInput, Alloc, Panic, Join, Shared, Cat>,
            (owned_input, alloc_per_thread, last, shared, cat),
            result,
        ),
    ensures
        result is Ok ==> last is Ok && last->Ok_0.compressed is Ok && final(owned_input).0 is Item,
        result is Ok ==> final(alloc_per_thread)@[i].0 is A,
        final(alloc_per_thread)@.len() == old(alloc_per_thread)@.len(),
        !(final(alloc_per_thread)@[i].0 is Join),
        last matches Ok(done) ==> (final(alloc_per_thread)@.last().0 matches InternalSendAlloc::A(
            alloc,
            extra,
        ) && alloc == done.alloc && call_ensures(ExtraInput::default, (), extra)),
        last is Err ==> final(alloc_per_thread)@.last().0 is SpawningOrJoining,
{
    let (results, merged, retrieved) = choose|
        results: Seq<Joined<Alloc, Panic>>,
        merged: Result<usize, BrotliEncoderThreadError<Panic>>,
        retrieved: Result<(Input, BrotliEncoderParams), ()>,
    |
        {
            &&& #[trigger] ends_with(cat, results, merged)
            &&& crate::threading::merge::joined_from(
                results,
                old(alloc_per_thread)@,
                last,
                final(alloc_per_thread)@,
            )
            &&& call_ensures(Shared::unwrap, (shared,), retrieved)
            &&& #[trigger] crate::threading::merge::input_returned(
                *old(owned_input),
                crate::threading::merge::retrieved_input(retrieved),
                *final(owned_input),
            )
            &&& result == crate::threading::merge::with_input(merged, retrieved is Ok)
        };
    let (cats, k) = law_put_together(cat, results, merged);
    let n = results.len() as int;
    assert(crate::threading::merge::settled_slot(final(alloc_per_thread)@[i], results[i]));
    assert(crate::threading::merge::settled_slot(final(alloc_per_thread)@[n - 1], results[n - 1]));
    if result is Ok {
        assert(merged is Ok);
        assert(k == n);
        assert(joined_on(cats, results, i));
        assert(joined_on(cats, results, n - 1));
    }
}

/// What a slot has after its thread had this result: the allocator, with a default extra input, or
/// nothing where the thread was lost.
pub open spec fn left_in_slot<ExtraInput: Default, Alloc, Panic, Join>(
    slot: SendAlloc<CompressionThreadResult<Alloc, Panic>, ExtraInput, Alloc, Join>,
    joined: Joined<Alloc, Panic>,
) -> bool {
    match joined {
        Ok(result) => slot.0 matches InternalSendAlloc::A(alloc, extra) && alloc == result.alloc
            && call_ensures(ExtraInput::default, (), extra),
        Err(_) => slot.0 is SpawningOrJoining,
    }
}

/// A course of compressing a shared input: every thread but the last was waited for and had its result,
/// the last chunk has its own, the slots have what is left, the chunks were put together with the result
/// `merged`, and the input is back with its owner unless it could not be had back.
pub open spec fn shared_course<
    Input: Send + 'static,
    ExtraInput: Default,
    Alloc: Send + 'static,
    Panic: Send + 'static,
    Join: Joinable<CompressionThreadResult<Alloc, Panic>, BrotliEncoderThreadError<Panic>>,
    Shared: OwnedRetriever<(Input, BrotliEncoderParams)>,
    Cat: Catenator,
>(
    results: Seq<Joined<Alloc, Panic>>,
    merged: Result<usize, BrotliEncoderThreadError<Panic>>,
    retrieved: Result<(Input, BrotliEncoderParams), ()>,
    before: Seq<SendAlloc<CompressionThreadResult<Alloc, Panic>, ExtraInput, Alloc, Join>>,
    after: Seq<SendAlloc<CompressionThreadResult<Alloc, Panic>, ExtraInput, Alloc, Join>>,
    last: Result<CompressionThreadResult<Alloc, Panic>, ()>,
    shared: Shared,
    cat: Cat,
) -> bool {
    &&& results.len() == before.len()
    &&& forall|i: int|
        0 <= i < results.len() - 1 ==> call_ensures(
            Join::join,
            (before[i].0->Join_0,),
            #[trigger] results[i],
        )
    &&& last matches Ok(done) ==> results.last() == Ok::<_, BrotliEncoderThreadError<Panic>>(done)
    &&& last is Err ==> results.last() == Err::<CompressionThreadResult<Alloc, Panic>, _>(
        BrotliEncoderThreadError::<Panic>::OtherThreadPanic,
    )
    &&& forall|i: int| 0 <= i < after.len() ==> left_in_slot(#[trigger] after[i], results[i])
    &&& ends_with(cat, results, merged)
    &&& call_ensures(Shared::unwrap, (shared,), retrieved)
}

/// Compressing a shared input waits for all threads, puts what they bring together, and hands the input
/// back to its owner. Without the input a success is none.
pub proof fn law_shared_course<
    Input: Send + 'static,
    ExtraInput: Default,
    Alloc: Send + 'static,
    Panic: Send + 'static,
    Join: Joinable<CompressionThreadResult<Alloc, Panic>, BrotliEncoderThreadError<Panic>>,
    Shared: OwnedRetriever<(Input, BrotliEncoderParams)>,
    Cat: Catenator,
>(
    owned_input: &mut Owned<Input>,
    alloc_per_thread: &mut [SendAlloc<
        CompressionThreadResult<Alloc, Panic>,
        ExtraInput,
        Alloc,
        Join,
    >],
    last: Result<CompressionThreadResult<Alloc, Panic>, ()>,
    shared: Shared,
    cat: Cat,
    result: Result<usize, BrotliEncoderThreadError<Panic>>,
)
    requires
        call_ensures(
            CompressMulti::<Input, ExtraInput, Alloc, Panic, Join, Shared, Cat>,
            (owned_input, alloc_per_thread, last, shared, cat),
            result,
        ),
    ensures
        exists|
            results: Seq<Joined<Alloc, Panic>>,
            merged: Result<usize, BrotliEncoderThreadError<Panic>>,
            retrieved: Result<(Input, BrotliEncoderParams), ()>,
        | #[trigger]
            shared_course(
                results,
                merged,
                retrieved,
                old(alloc_per_thread)@,
                final(alloc_per_thread)@,
                last,
                shared,
                cat,
            ) && match retrieved {
                Ok((input, _)) => result == merged && final(owned_input).0 == InternalOwned::Item(
                    input,
                ),
                Err(_) => *final(owned_input) == *old(owned_input) && if merged is Err {
                    result == merged
                } else {
                    result == Err::<usize, _>(BrotliEncoderThreadError::<Panic>::OtherThreadPanic)
                },
            },
{
    let (results, merged, retrieved) = choose|
        results: Seq<Joined<Alloc, Panic>>,
        merged: Result<usize, BrotliEncoderThreadError<Panic>>,
        retrieved: Result<(Input, BrotliEncoderParams), ()>,
    |
        {
            &&& #[trigger] ends_with(cat, results, merged)
            &&& crate::threading::merge::joined_from(
                results,
                old(alloc_per_thread)@,
                last,
                final(alloc_per_thread)@,
            )
            &&& call_ensures(Shared::unwrap, (shared,), retrieved)
            &&& #[trigger] crate::threading::merge::input_returned(
                *old(owned_input),
                crate::threading::merge::retrieved_input(retrieved),
                *final(owned_input),
            )
            &&& result == crate::threading::merge::with_input(merged, retrieved is Ok)
        };
    assert forall|i: int| 0 <= i < final(alloc_per_thread)@.len() implies left_in_slot(
        #[trigger] final(alloc_per_thread)@[i],
        results[i],
    ) by {
        assert(crate::threading::merge::settled_slot(final(alloc_per_thread)@[i], results[i]));
    }
    assert(shared_course(
        results,
        merged,
        retrieved,
        old(alloc_per_thread)@,
        final(alloc_per_thread)@,
        last,
        shared,
        cat,
    ));
}

/// An input that is had back goes to its owner and leaves the result alone; one that is not had back
/// turns a success into a failure, and leaves what the owner has.
pub proof fn law_return_input<Input, Panic>(
    owned_input: &mut Owned<Input>,
    retrieved: Result<Input, ()>,
    result: Result<usize, BrotliEncoderThreadError<Panic>>,
    returned: Result<usize, BrotliEncoderThreadError<Panic>>,
)
    requires
        call_ensures(return_input::<Input, Panic>, (owned_input, retrieved, result), returned),
    ensures
        retrieved matches Ok(input) ==> final(owned_input).0 == InternalOwned::Item(input)
            && returned == result,
        retrieved is Err ==> final(owned_input).0 == old(owned_input).0 && returned is Err,
        retrieved is Err && result is Err ==> returned == result,
        retrieved is Err && result is Ok ==> returned->Err_0 is OtherThreadPanic,
{
}

/// Giving up waits for every thread that runs, and touches no other slot. It reports the error of a
/// thread that was lost, or that some thread panicked where none was.
pub proof fn law_abandon<
    ExtraInput: Default,
    Alloc: Send + 'static,
    Panic: Send + 'static,
    Join: Joinable<CompressionThreadResult<Alloc, Panic>, BrotliEncoderThreadError<Panic>>,
>(
    alloc_per_thread: &mut [SendAlloc<
        CompressionThreadResult<Alloc, Panic>,
        ExtraInput,
        Alloc,
        Join,
    >],
    error: BrotliEncoderThreadError<Panic>,
    i: int,
)
    requires
        0 <= i < old(alloc_per_thread)@.len(),
        call_ensures(abandon::<ExtraInput, Alloc, Panic, Join>, (alloc_per_thread,), error),
    ensures
        final(alloc_per_thread)@.len() == old(alloc_per_thread)@.len(),
        !(final(alloc_per_thread)@[i].0 is Join),
        !(old(alloc_per_thread)@[i].0 is Join) ==> final(alloc_per_thread)@[i] == old(
            alloc_per_thread,
        )@[i],
        old(alloc_per_thread)@[i].0 is Join ==> exists|joined: Joined<Alloc, Panic>|
            #[trigger] call_ensures(
                Join::join,
                (old(alloc_per_thread)@[i].0->Join_0,),
                joined,
            ) && match joined {
                Ok(result) => final(alloc_per_thread)@[i].0 matches InternalSendAlloc::A(alloc, _)
                    && alloc == result.alloc,
                Err(_) => final(alloc_per_thread)@[i].0 is SpawningOrJoining,
            },
{
    let waited = choose|waited: Seq<Option<Joined<Alloc, Panic>>>|
        #![trigger waited.len()]
        {
            &&& waited.len() == old(alloc_per_thread)@.len()
            &&& forall|i: int|
                0 <= i < waited.len() ==> crate::threading::merge::abandoned_slot(
                    old(alloc_per_thread)@[i],
                    #[trigger] waited[i],
                    final(alloc_per_thread)@[i],
                )
            &&& error == crate::threading::merge::setup_error(
                waited.map_values(
                    |w: Option<Joined<Alloc, Panic>>| crate::threading::merge::lost_error(w),
                ),
            )
        };
    assert(crate::threading::merge::abandoned_slot(
        old(alloc_per_thread)@[i],
        waited[i],
        final(alloc_per_thread)@[i],
    ));
}

/// A course of giving up: `waited[i]` is the result of the thread of slot `i`, where it has one. What is
/// reported is why the last of those that were lost was, or that some thread panicked.
pub open spec fn abandon_course<
    ExtraInput: Default,
    Alloc: Send + 'static,
    Panic: Send + 'static,
    Join: Joinable<CompressionThreadResult<Alloc, Panic>, BrotliEncoderThreadError<Panic>>,
>(
    waited: Seq<Option<Joined<Alloc, Panic>>>,
    before: Seq<SendAlloc<CompressionThreadResult<Alloc, Panic>, ExtraInput, Alloc, Join>>,
    after: Seq<SendAlloc<CompressionThreadResult<Alloc, Panic>, ExtraInput, Alloc, Join>>,
    error: BrotliEncoderThreadError<Panic>,
) -> bool {
    &&& waited.len() == before.len()
    &&& forall|i: int|
        0 <= i < waited.len() ==> match #[trigger] waited[i] {
            Some(joined) => before[i].0 is Join && call_ensures(
                Join::join,
                (before[i].0->Join_0,),
                joined,
            ) && left_in_slot(after[i], joined),
            None => !(before[i].0 is Join) && after[i] == before[i],
        }
    &&& forall|i: int|
        0 <= i < waited.len() && (#[trigger] waited[i] matches Some(Err(_))) && (forall|j: int|
            i < j < waited.len() ==> !(#[trigger] waited[j] matches Some(Err(_)))) ==> error
            == waited[i]->0->Err_0
    &&& (forall|i: int| 0 <= i < waited.len() ==> !(#[trigger] waited[i] matches Some(Err(_))))
        ==> error is OtherThreadPanic
}

/// Giving up follows some course: what it reports is why the last thread that was lost was lost, or that
/// some thread panicked.
pub proof fn law_abandon_course<
    ExtraInput: Default,
    Alloc: Send + 'static,
    Panic: Send + 'static,
    Join: Joinable<CompressionThreadResult<Alloc, Panic>, BrotliEncoderThreadError<Panic>>,
>(
    alloc_per_thread: &mut [SendAlloc<
        CompressionThreadResult<Alloc, Panic>,
        ExtraInput,
        Alloc,
        Join,
    >],
    error: BrotliEncoderThreadError<Panic>,
)
    requires
        call_ensures(abandon::<ExtraInput, Alloc, Panic, Join>, (alloc_per_thread,), error),
    ensures
        exists|waited: Seq<Option<Joined<Alloc, Panic>>>| #[trigger]
            abandon_course(waited, old(alloc_per_thread)@, final(alloc_per_thread)@, error),
{
    let waited = choose|waited: Seq<Option<Joined<Alloc, Panic>>>|
        #![trigger waited.len()]
        {
            &&& waited.len() == old(alloc_per_thread)@.len()
            &&& forall|i: int|
                0 <= i < waited.len() ==> crate::threading::merge::abandoned_slot(
                    old(alloc_per_thread)@[i],
                    #[trigger] waited[i],
                    final(alloc_per_thread)@[i],
                )
            &&& error == crate::threading::merge::setup_error(
                waited.map_values(
                    |w: Option<Joined<Alloc, Panic>>| crate::threading::merge::lost_error(w),
                ),
            )
        };
    let lost = waited.map_values(
        |w: Option<Joined<Alloc, Panic>>| crate::threading::merge::lost_error(w),
    );
    assert forall|i: int|
        0 <= i < waited.len() && (#[trigger] waited[i] matches Some(Err(_))) && (forall|j: int|
            i < j < waited.len() ==> !(#[trigger] waited[j] matches Some(Err(_)))) implies error
        == waited[i]->0->Err_0 by {
        assert forall|j: int| i < j < lost.len() implies #[trigger] lost[j] is None by {
            assert(!(waited[j] matches Some(Err(_))));
        }
        law_setup_error(lost, i);
    }
    if forall|i: int| 0 <= i < waited.len() ==> !(#[trigger] waited[i] matches Some(Err(_))) {
        assert forall|j: int| 0 <= j < lost.len() implies #[trigger] lost[j] is None by {
            assert(!(waited[j] matches Some(Err(_))));
        }
        law_setup_error_of_none(lost);
    }
    assert(abandon_course(waited, old(alloc_per_thread)@, final(alloc_per_thread)@, error));
}

/// What is reported after giving up is the error of the last thread that was lost, and a panic only if
/// none was.
pub proof fn law_setup_error<Panic>(lost: Seq<Option<BrotliEncoderThreadError<Panic>>>, i: int)
    requires
        0 <= i < lost.len(),
        lost[i] is Some,
        forall|j: int| i < j < lost.len() ==> #[trigger] lost[j] is None,
    ensures
        Some(crate::threading::merge::setup_error(lost)) == lost[i],
    decreases lost.len(),
{
    let rest = lost.drop_last();
    if i < rest.len() {
        assert(lost[lost.len() - 1] is None);
        assert(rest[i] == lost[i]);
        assert forall|j: int| i < j < rest.len() implies #[trigger] rest[j] is None by {
            assert(lost[j] is None);
        }
        law_setup_error(rest, i);
    }
}

/// Where no thread was lost, giving up reports that some thread panicked.
pub proof fn law_setup_error_of_none<Panic>(lost: Seq<Option<BrotliEncoderThreadError<Panic>>>)
    requires
        forall|j: int| 0 <= j < lost.len() ==> #[trigger] lost[j] is None,
    ensures
        crate::threading::merge::setup_error(lost) is OtherThreadPanic,
    decreases lost.len(),
{
    if lost.len() > 0 {
        assert(lost[lost.len() - 1] is None);
        let rest = lost.drop_last();
        assert forall|j: int| 0 <= j < rest.len() implies #[trigger] rest[j] is None by {
            assert(lost[j] is None);
        }
        law_setup_error_of_none(rest);
    }
}

/// The chunk of the next thread is handed out as long as nothing went wrong, and its allocator is kept
/// whatever went wrong. The first error stays.
pub proof fn law_take<Alloc, Panic>(
    merge: &mut Merge<Alloc, Panic>,
    joined: Joined<Alloc, Panic>,
    chunk: Option<CompressedFileChunk>,
)
    requires
        call_ensures(Merge::<Alloc, Panic>::take, (merge, joined), chunk),
    ensures
        final(merge).allocators().len() == old(merge).allocators().len() + 1,
        joined matches Ok(result) ==> final(merge).allocators().last() == Some(result.alloc),
        joined is Err ==> final(merge).allocators().last() is None,
        chunk is Some <==> old(merge).pending() is None && brought(joined) is Some,
        chunk matches Some(given) ==> brought(joined) == Some(given.spec_bytes()),
        old(merge).pending() is Some ==> final(merge).pending() == old(merge).pending(),
        old(merge).pending() is None ==> match joined {
            Err(e) => final(merge).pending() == Some(e),
            Ok(result) => match result.compressed {
                Err(e) => final(merge).pending() == Some(e),
                Ok(_) => final(merge).pending() is None,
            },
        },
{
}

/// Putting a chunk behind the others goes wrong unless it succeeds or only wants more input; want of room
/// has an error of its own. The first error stays.
pub proof fn law_concatenated<Alloc, Panic>(merge: &mut Merge<Alloc, Panic>, result: BroCatliResult)
    requires
        call_ensures(Merge::<Alloc, Panic>::concatenated, (merge, result), ()),
    ensures
        final(merge).allocators() == old(merge).allocators(),
        old(merge).pending() is Some ==> final(merge).pending() == old(merge).pending(),
        old(merge).pending() is None ==> (final(merge).pending() is None <==> worked(result)),
        old(merge).pending() is None && !worked(result) ==> final(merge).pending() == Some(
            failure::<Panic>(result),
        ),
{
}

/// A chunk that was compressed here, or left in a slot, has the result that it has; where there is none,
/// some thread panicked.
pub proof fn law_results<Alloc, Panic>(
    last: Result<CompressionThreadResult<Alloc, Panic>, ()>,
    joined: Joined<Alloc, Panic>,
    slot: Option<CompressionThreadResult<Alloc, Panic>>,
    left: Joined<Alloc, Panic>,
)
    requires
        call_ensures(last_result::<Alloc, Panic>, (last,), joined),
        call_ensures(slot_result::<Alloc, Panic>, (slot,), left),
    ensures
        last matches Ok(result) ==> joined == Ok::<_, BrotliEncoderThreadError<Panic>>(result),
        last is Err ==> joined == Err::<CompressionThreadResult<Alloc, Panic>, _>(
            BrotliEncoderThreadError::<Panic>::OtherThreadPanic,
        ),
        slot matches Some(result) ==> left == Ok::<_, BrotliEncoderThreadError<Panic>>(result),
        slot is None ==> left == Err::<CompressionThreadResult<Alloc, Panic>, _>(
            BrotliEncoderThreadError::<Panic>::OtherThreadPanic,
        ),
{
}

/// Of several errors the first is remembered.
pub proof fn law_pending_error<Panic>(
    pending: &mut Option<BrotliEncoderThreadError<Panic>>,
    error: BrotliEncoderThreadError<Panic>,
)
    requires
        call_ensures(set_pending_error::<Panic>, (pending, error), ()),
    ensures
        *old(pending) is Some ==> *final(pending) == *old(pending),
        *old(pending) is None ==> *final(pending) == Some(error),
{
}

/// Putting chunks together starts with no error and no allocator, and hands all allocators out at the end.
pub proof fn law_merge_ends<Alloc, Panic>(
    start: Merge<Alloc, Panic>,
    merge: Merge<Alloc, Panic>,
    returned: Vec<Option<Alloc>>,
)
    requires
        call_ensures(Merge::<Alloc, Panic>::new, (), start),
        call_ensures(Merge::<Alloc, Panic>::into_returned, (merge,), returned),
    ensures
        start.pending() is None,
        start.allocators().len() == 0,
        returned@ == merge.allocators(),
{
}

/// Waiting for the thread of a slot takes the thread out of it and gives what the thread brought.
pub proof fn law_join_slot<
    ExtraInput,
    Alloc: Send + 'static,
    Panic: Send + 'static,
    Join: Joinable<CompressionThreadResult<Alloc, Panic>, BrotliEncoderThreadError<Panic>>,
>(
    slot: &mut SendAlloc<CompressionThreadResult<Alloc, Panic>, ExtraInput, Alloc, Join>,
    joined: Joined<Alloc, Panic>,
)
    requires
        old(slot).0 is Join,
        call_ensures(join_slot::<ExtraInput, Alloc, Panic, Join>, (slot,), joined),
    ensures
        final(slot).0 is SpawningOrJoining,
        call_ensures(Join::join, (old(slot).0->Join_0,), joined),
{
}

/// The whole ends with the first error if there is one, and else with how finishing went.
pub proof fn law_conclude<Alloc, Panic>(
    merge: &mut Merge<Alloc, Panic>,
    finished: BroCatliResult,
    size: usize,
    result: Result<usize, BrotliEncoderThreadError<Panic>>,
)
    requires
        call_ensures(Merge::<Alloc, Panic>::conclude, (merge, finished, size), result),
    ensures
        old(merge).pending() matches Some(e) ==> result == Err::<
            usize,
            BrotliEncoderThreadError<Panic>,
        >(e),
        old(merge).pending() is None && finished is Success ==> result == Ok::<
            usize,
            BrotliEncoderThreadError<Panic>,
        >(size),
        old(merge).pending() is None && !(finished is Success) ==> result == Err::<
            usize,
            BrotliEncoderThreadError<Panic>,
        >(BrotliEncoderThreadError::ConcatenationFinalizationError(finished)),
        final(merge).allocators() == old(merge).allocators(),
{
}

} // verus!
