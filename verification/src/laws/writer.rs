//! Laws of the compressing writer.
use crate::writer::{
    buffer_size_or_default, flush_or_close, without_progress, write_all, write_course, write_step,
    BrotliEncoderOperation, CompressCall, EncoderCall, WriteAll, WriteStep, WriterErrors,
};
use vstd::prelude::*;

verus! {

/// A writer that is asked for no buffer size gets four thousand and ninety-six bytes, and any other gets
/// what it asks for.
pub proof fn law_buffer_size(asked: usize, size: usize)
    requires
        call_ensures(buffer_size_or_default, (asked,), size),
    ensures
        asked == 0 ==> size == 4096,
        asked != 0 ==> size == asked,
{
}

/// A write ends before the first call of the encoder exactly if there is nothing to compress.
pub proof fn law_write_starts<ErrType>(len: usize, ended: Option<Result<usize, ErrType>>)
    requires
        call_ensures(crate::writer::write::<ErrType>, (len,), ended),
    ensures
        len == 0 <==> ended is Some,
        ended matches Some(result) ==> result == Ok::<usize, ErrType>(0),
{
}

/// After a call of the encoder a write reports success only if no input is left, and then all of it. As
/// long as nothing went wrong and some is left, the encoder is called again. What went wrong is reported,
/// a failed write before a failed encoder.
pub proof fn law_write_goes_on<ErrType>(
    errors: &mut WriterErrors<ErrType>,
    written: Result<(), ErrType>,
    ok: bool,
    avail_in: usize,
    len: usize,
    ended: Option<Result<usize, ErrType>>,
)
    requires
        call_ensures(write_step::<ErrType>, (errors, written, ok, avail_in, len), ended),
    ensures
        ended is None <==> written is Ok && ok && avail_in > 0,
        ended matches Some(Ok(n)) ==> written is Ok && ok && avail_in == 0 && n == len,
        written matches Err(e) ==> ended == Some(Err::<usize, ErrType>(e)),
        written is Ok && !ok ==> (ended matches Some(Err(e)) && (old(errors).error_if_invalid_data
            is Some ==> old(errors).error_if_invalid_data == Some(e))),
        written is Ok && !ok ==> final(errors).error_if_invalid_data is None,
        written is Err || ok ==> final(errors).error_if_invalid_data == old(
            errors,
        ).error_if_invalid_data,
        final(errors).error_if_zero_bytes_written == old(errors).error_if_zero_bytes_written,
{
}

/// A write of something ends with the first call of the encoder behind which there is an error, or no
/// input left. It succeeds only behind a call that left none, and all calls before that one had left
/// some.
pub proof fn law_write_takes_all<ErrType>(
    len: usize,
    calls: Seq<CompressCall<ErrType>>,
    invalid_data: Option<ErrType>,
) -> (last: int)
    requires
        len > 0,
        write_course(len, calls, invalid_data) is Some,
    ensures
        0 <= last < calls.len(),
        calls[last].written is Err || !calls[last].ok || calls[last].avail_in == 0,
        forall|j: int|
            0 <= j < last ==> (#[trigger] calls[j]).written is Ok && calls[j].ok && calls[j].avail_in
                > 0,
        write_course(len, calls, invalid_data)->0 is Ok <==> calls[last].written is Ok
            && calls[last].ok && calls[last].avail_in == 0,
        write_course(len, calls, invalid_data) matches Some(Ok(n)) ==> n == len,
        write_course(len, calls, invalid_data) matches Some(Err(e)) ==> match calls[last].written {
            Err(cause) => e == cause,
            Ok(_) => invalid_data matches Some(cause) ==> e == cause,
        },
    decreases calls.len(),
{
    let rest = calls.drop_last();
    if write_course(len, rest, invalid_data) is Some {
        let last = law_write_takes_all(len, rest, invalid_data);
        assert(rest[last] == calls[last]);
        assert forall|j: int| 0 <= j < last implies (#[trigger] calls[j]).written is Ok && calls[j].ok
            && calls[j].avail_in > 0 by {
            assert(rest[j] == calls[j]);
        }
        last
    } else {
        law_write_waits(len, rest, invalid_data);
        assert forall|j: int| 0 <= j < rest.len() implies (#[trigger] calls[j]).written is Ok
            && calls[j].ok && calls[j].avail_in > 0 by {
            assert(rest[j] == calls[j]);
        }
        calls.len() - 1
    }
}

/// A write of something that has not ended has input left behind every call, none of which failed.
pub proof fn law_write_waits<ErrType>(
    len: usize,
    calls: Seq<CompressCall<ErrType>>,
    invalid_data: Option<ErrType>,
)
    requires
        len > 0,
    ensures
        write_course(len, calls, invalid_data) is None <==> forall|j: int|
            0 <= j < calls.len() ==> (#[trigger] calls[j]).written is Ok && calls[j].ok
                && calls[j].avail_in > 0,
    decreases calls.len(),
{
    if calls.len() > 0 {
        let rest = calls.drop_last();
        law_write_waits(len, rest, invalid_data);
        if write_course(len, calls, invalid_data) is None {
            assert forall|j: int| 0 <= j < calls.len() implies (#[trigger] calls[j]).written is Ok
                && calls[j].ok && calls[j].avail_in > 0 by {
                if j < rest.len() {
                    assert(rest[j] == calls[j]);
                }
            }
        }
        if forall|j: int|
            0 <= j < calls.len() ==> (#[trigger] calls[j]).written is Ok && calls[j].ok
                && calls[j].avail_in > 0 {
            assert forall|j: int| 0 <= j < rest.len() implies (#[trigger] rest[j]).written is Ok
                && rest[j].ok && rest[j].avail_in > 0 by {
                assert(rest[j] == calls[j]);
            }
            assert(calls[calls.len() - 1].avail_in > 0);
        }
    }
}

/// Writing a whole buffer starts with its first byte, unless it has none.
pub proof fn law_write_all_starts<ErrType>(len: usize, started: (WriteAll, WriteStep<ErrType>))
    requires
        call_ensures(write_all::<ErrType>, (len,), started),
    ensures
        started.0.spec_written() == 0,
        started.0.spec_len() == len,
        len == 0 ==> started.1 == (WriteStep::Done { result: Ok::<(), ErrType>(()) }),
        len > 0 ==> started.1 == (WriteStep::<ErrType>::Write { from: 0 }),
{
}

/// Writing a whole buffer goes on right behind what is written, however short a write was, and succeeds
/// exactly when no byte is left. A write that wrote nothing asks for an error, and one that failed ends
/// with its own.
pub proof fn law_write_all_goes_on<ErrType>(
    state: &mut WriteAll,
    outcome: Result<usize, ErrType>,
    step: WriteStep<ErrType>,
)
    requires
        old(state).wf(),
        outcome matches Ok(n) ==> n <= old(state).spec_len() - old(state).spec_written(),
        call_ensures(WriteAll::wrote::<ErrType>, (state, outcome), step),
    ensures
        final(state).spec_len() == old(state).spec_len(),
        match outcome {
            Ok(n) => {
                let written = old(state).spec_written() + n;
                &&& final(state).spec_written() == written
                &&& n == 0 <==> step is AskForError
                &&& n > 0 && written < old(state).spec_len() <==> step is Write
                &&& n > 0 && written == old(state).spec_len() <==> step is Done
                &&& step matches WriteStep::Write { from } ==> from == written
                &&& step matches WriteStep::Done { result } ==> result is Ok
            },
            Err(e) => {
                &&& step matches WriteStep::Done { result: Err(given) } && given == e
                &&& final(state).spec_written() == old(state).spec_written()
            },
        },
{
}

/// What a write without progress ends with is the error that there is, and no failure where there is
/// none.
pub proof fn law_without_progress<ErrType>(error: Option<ErrType>, result: Result<(), ErrType>)
    requires
        call_ensures(without_progress::<ErrType>, (error,), result),
    ensures
        error is Some <==> result is Err,
        error matches Some(e) ==> result == Err::<(), ErrType>(e),
{
}

/// A flush ends once the encoder has no more output, and does not finish the stream; finishing ends once
/// the stream is finished, however much output was pending. Until then the encoder is called again. What
/// went wrong is reported, a failed write before a failed encoder.
pub proof fn law_flush_or_close<ErrType>(
    errors: &mut WriterErrors<ErrType>,
    op: BrotliEncoderOperation,
    written: Result<(), ErrType>,
    call: EncoderCall,
    ended: Option<Result<(), ErrType>>,
)
    requires
        call_ensures(flush_or_close::<ErrType>, (errors, op, written, call), ended),
    ensures
        written matches Err(e) ==> ended == Some(Err::<(), ErrType>(e)),
        written is Ok && !call.ok ==> (ended matches Some(Err(e)) && (old(
            errors,
        ).error_if_invalid_data is Some ==> old(errors).error_if_invalid_data == Some(e))),
        written is Ok && call.ok && op == BrotliEncoderOperation::BROTLI_OPERATION_FLUSH ==> (ended
            is None <==> call.has_more_output),
        written is Ok && call.ok && op != BrotliEncoderOperation::BROTLI_OPERATION_FLUSH ==> (ended
            is None <==> !call.is_finished),
        written is Ok && call.ok ==> !(ended matches Some(Err(_))),
        final(errors).error_if_zero_bytes_written == old(errors).error_if_zero_bytes_written,
        written is Ok && !call.ok ==> final(errors).error_if_invalid_data is None,
        written is Err || call.ok ==> final(errors).error_if_invalid_data == old(
            errors,
        ).error_if_invalid_data,
{
}

/// Each error is given once: first the one for a write that wrote nothing, then the one for invalid
/// data, then none.
pub proof fn law_errors_given_once<ErrType>(
    errors: &mut WriterErrors<ErrType>,
    error: Option<ErrType>,
)
    requires
        call_ensures(WriterErrors::<ErrType>::zero_bytes_error, (errors,), error),
    ensures
        final(errors).error_if_zero_bytes_written is None,
        old(errors).error_if_zero_bytes_written is Some ==> error == old(
            errors,
        ).error_if_zero_bytes_written && final(errors).error_if_invalid_data == old(
            errors,
        ).error_if_invalid_data,
        old(errors).error_if_zero_bytes_written is None ==> error == old(
            errors,
        ).error_if_invalid_data && final(errors).error_if_invalid_data is None,
{
}

/// The error for invalid data is given once, and the other one stays.
pub proof fn law_invalid_data_error<ErrType>(errors: &mut WriterErrors<ErrType>, error: ErrType)
    requires
        old(errors).error_if_invalid_data is Some,
        call_ensures(WriterErrors::<ErrType>::invalid_data_error, (errors,), error),
    ensures
        old(errors).error_if_invalid_data == Some(error),
        final(errors).error_if_invalid_data is None,
        final(errors).error_if_zero_bytes_written == old(errors).error_if_zero_bytes_written,
{
}

/// What is left of a buffer is written next, from its first byte on; where nothing is left, all is
/// written.
pub proof fn law_write_all_next<ErrType>(state: WriteAll, step: WriteStep<ErrType>)
    requires
        state.wf(),
        call_ensures(WriteAll::next::<ErrType>, (&state,), step),
    ensures
        state.spec_written() < state.spec_len() ==> step == (WriteStep::<ErrType>::Write {
            from: state.spec_written(),
        }),
        state.spec_written() >= state.spec_len() ==> step == (WriteStep::Done {
            result: Ok::<(), ErrType>(()),
        }),
{
}

/// A new writer has both errors to give, each in its place.
pub proof fn law_errors_start<ErrType>(
    invalid_data: ErrType,
    zero_bytes_written: ErrType,
    errors: WriterErrors<ErrType>,
)
    requires
        call_ensures(WriterErrors::<ErrType>::new, (invalid_data, zero_bytes_written), errors),
    ensures
        errors.error_if_invalid_data == Some(invalid_data),
        errors.error_if_zero_bytes_written == Some(zero_bytes_written),
{
}

} // verus!
