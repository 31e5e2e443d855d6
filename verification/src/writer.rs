//! The decisions of a compressing writer: when to call the encoder again, when to write again, and
//! with which error to give up.
use vstd::prelude::*;

verus! {

/// How large the buffer of a writer is where nothing is said.
pub const DEFAULT_BUFFER_SIZE: usize = 4096;

/// The size of the buffer of a writer: the default where none is asked for.
pub open spec fn spec_buffer_size(buffer_size: usize) -> usize {
    if buffer_size == 0 {
        DEFAULT_BUFFER_SIZE
    } else {
        buffer_size
    }
}

/// Asking for no buffer size and asking for the default are the same, and no other two sizes are.
pub proof fn lemma_buffer_size(a: usize, b: usize)
    ensures
        spec_buffer_size(a) == spec_buffer_size(b) <==> a == b || (a == 0 && b
            == DEFAULT_BUFFER_SIZE) || (a == DEFAULT_BUFFER_SIZE && b == 0),
{
}

/// The size of the buffer of a writer.
pub fn buffer_size_or_default(buffer_size: usize) -> (size: usize)
    ensures
        size == spec_buffer_size(buffer_size),
        size > 0,
{
    if buffer_size == 0 {
        DEFAULT_BUFFER_SIZE
    } else {
        buffer_size
    }
}

/// What an encoder is asked to do.
#[derive(Clone, Copy, PartialEq, Eq, Debug, Structural)]
pub enum BrotliEncoderOperation {
    BROTLI_OPERATION_PROCESS,
    BROTLI_OPERATION_FLUSH,
    BROTLI_OPERATION_FINISH,
    BROTLI_OPERATION_EMIT_METADATA,
}

/// The errors that a writer has to give: each is given once.
#[derive(Debug)]
pub struct WriterErrors<ErrType> {
    pub error_if_invalid_data: Option<ErrType>,
    pub error_if_zero_bytes_written: Option<ErrType>,
}

impl<ErrType> WriterErrors<ErrType> {
    /// Holds both errors.
    pub fn new(invalid_data: ErrType, zero_bytes_written: ErrType) -> (errors: Self)
        ensures
            errors.error_if_invalid_data == Some(invalid_data),
            errors.error_if_zero_bytes_written == Some(zero_bytes_written),
    {
        WriterErrors {
            error_if_invalid_data: Some(invalid_data),
            error_if_zero_bytes_written: Some(zero_bytes_written),
        }
    }

    /// The error for a write that wrote nothing. Once that is gone, the one for invalid data stands
    /// in; once both are gone there is none.
    pub fn zero_bytes_error(&mut self) -> (error: Option<ErrType>)
        ensures
            error == match old(self).error_if_zero_bytes_written {
                Some(e) => Some(e),
                None => old(self).error_if_invalid_data,
            },
            final(self).error_if_zero_bytes_written is None,
            final(self).error_if_invalid_data == if old(self).error_if_zero_bytes_written is Some {
                old(self).error_if_invalid_data
            } else {
                None
            },
    {
        match self.error_if_zero_bytes_written.take() {
            Some(err) => Some(err),
            None => self.error_if_invalid_data.take(),
        }
    }

    /// The error for invalid data, which has not been given yet.
    pub fn invalid_data_error(&mut self) -> (error: ErrType)
        requires
            old(self).error_if_invalid_data is Some,
        ensures
            Some(error) == old(self).error_if_invalid_data,
            final(self).error_if_invalid_data is None,
            final(self).error_if_zero_bytes_written == old(self).error_if_zero_bytes_written,
    {
        match self.error_if_invalid_data.take() {
            Some(err) => err,
            None => vstd::pervasive::unreached(),
        }
    }
}

/// Writing a whole buffer: how much of it is written.
#[derive(Clone, Copy, PartialEq, Eq, Debug, Structural)]
pub struct WriteAll {
    written: usize,
    len: usize,
}

/// What to do next to write a whole buffer.
#[derive(PartialEq, Eq, Debug)]
pub enum WriteStep<ErrType> {
    /// Write what is left, from here on.
    Write { from: usize },
    /// Nothing was written: ask for the error to return. Where there is none, that is no failure.
    AskForError,
    /// Return.
    Done { result: Result<(), ErrType> },
}

/// Starts writing `len` bytes.
pub fn write_all<ErrType>(len: usize) -> (started: (WriteAll, WriteStep<ErrType>))
    ensures
        started.0.wf(),
        started.0.spec_written() == 0,
        started.0.spec_len() == len,
        started.1 == started.0.next_step::<ErrType>(),
{
    let state = WriteAll { written: 0, len };
    let step = state.next();
    (state, step)
}

impl WriteAll {
    /// No more is written than there is.
    pub closed spec fn wf(&self) -> bool {
        self.written <= self.len
    }

    /// How many bytes are written.
    pub closed spec fn spec_written(&self) -> usize {
        self.written
    }

    /// How many bytes there are.
    pub closed spec fn spec_len(&self) -> usize {
        self.len
    }

    /// What is left is written; where nothing is left, all is well.
    pub open spec fn next_step<ErrType>(&self) -> WriteStep<ErrType> {
        if self.spec_written() < self.spec_len() {
            WriteStep::Write { from: self.spec_written() }
        } else {
            WriteStep::Done { result: Ok(()) }
        }
    }

    /// What to do next.
    pub fn next<ErrType>(&self) -> (step: WriteStep<ErrType>)
        ensures
            step == self.next_step::<ErrType>(),
    {
        if self.written < self.len {
            WriteStep::Write { from: self.written }
        } else {
            WriteStep::Done { result: Ok(()) }
        }
    }

    /// Takes how a write of what was left went.
    pub fn wrote<ErrType>(&mut self, outcome: Result<usize, ErrType>) -> (step: WriteStep<ErrType>)
        requires
            old(self).wf(),
            outcome matches Ok(n) ==> n <= old(self).spec_len() - old(self).spec_written(),
        ensures
            final(self).wf(),
            final(self).spec_len() == old(self).spec_len(),
            match outcome {
                Ok(n) => {
                    &&& final(self).spec_written() == old(self).spec_written() + n
                    &&& step == if n == 0 {
                        WriteStep::AskForError
                    } else {
                        final(self).next_step::<ErrType>()
                    }
                },
                Err(e) => {
                    &&& final(self).spec_written() == old(self).spec_written()
                    &&& step == (WriteStep::Done { result: Err::<(), ErrType>(e) })
                },
            },
    {
        match outcome {
            Ok(bytes_written) => {
                if bytes_written != 0 {
                    self.written = self.written + bytes_written;
                    self.next()
                } else {
                    WriteStep::AskForError
                }
            },
            Err(e) => WriteStep::Done { result: Err(e) },
        }
    }
}

/// How writing ends that made no progress: with the error, if there is one.
pub fn without_progress<ErrType>(error: Option<ErrType>) -> (result: Result<(), ErrType>)
    ensures
        result == match error {
            Some(e) => Err(e),
            None => Ok::<(), ErrType>(()),
        },
{
    match error {
        Some(err) => Err(err),
        None => Ok(()),
    }
}

/// What an encoder did when it was called to flush or to finish.
#[derive(Clone, Copy, PartialEq, Eq, Debug, Structural)]
pub struct EncoderCall {
    /// It did not fail.
    pub ok: bool,
    /// It has more output than fitted.
    pub has_more_output: bool,
    /// It has given out the whole stream.
    pub is_finished: bool,
}

/// Whether flushing or finishing has come to its end without an error: a flush once there is no more
/// output, anything else once the stream is finished.
pub open spec fn settled(op: BrotliEncoderOperation, call: EncoderCall) -> bool {
    if op == BrotliEncoderOperation::BROTLI_OPERATION_FLUSH {
        !call.has_more_output
    } else {
        call.is_finished
    }
}

/// Decides after a call of the encoder, whose output was written with the given result: whether to
/// return, and what, or to call it again. An error of the write comes first, and one of the encoder
/// is reported as invalid data.
pub fn flush_or_close<ErrType>(
    errors: &mut WriterErrors<ErrType>,
    op: BrotliEncoderOperation,
    written: Result<(), ErrType>,
    call: EncoderCall,
) -> (ended: Option<Result<(), ErrType>>)
    requires
        written is Ok && !call.ok ==> old(errors).error_if_invalid_data is Some,
    ensures
        final(errors).error_if_zero_bytes_written == old(errors).error_if_zero_bytes_written,
        match written {
            Err(e) => {
                &&& ended == Some(Err::<(), ErrType>(e))
                &&& final(errors).error_if_invalid_data == old(errors).error_if_invalid_data
            },
            Ok(_) => if !call.ok {
                &&& ended == Some(Err::<(), ErrType>(old(errors).error_if_invalid_data->0))
                &&& final(errors).error_if_invalid_data is None
            } else {
                &&& ended == if settled(op, call) {
                    Some(Ok::<(), ErrType>(()))
                } else {
                    None
                }
                &&& final(errors).error_if_invalid_data == old(errors).error_if_invalid_data
            },
        },
{
    match written {
        Err(e) => {
            return Some(Err(e));
        },
        Ok(_) => {},
    }
    if !call.ok {
        return Some(Err(errors.invalid_data_error()));
    }
    if op == BrotliEncoderOperation::BROTLI_OPERATION_FLUSH {
        if call.has_more_output {
            return None;
        }
        return Some(Ok(()));
    }
    if call.is_finished {
        return Some(Ok(()));
    }
    None
}

/// What came of a call of the encoder that was to compress: how its output was written, whether it did
/// not fail, and how many bytes it left.
pub struct CompressCall<ErrType> {
    pub written: Result<(), ErrType>,
    pub ok: bool,
    pub avail_in: usize,
}

/// How compressing `len` bytes ends after a call of the encoder, if it does. An error of the write comes
/// first, and one of the encoder is reported as invalid data.
pub open spec fn write_ended<ErrType>(
    call: CompressCall<ErrType>,
    invalid_data: Option<ErrType>,
    len: usize,
) -> Option<Result<usize, ErrType>> {
    match call.written {
        Err(e) => Some(Err(e)),
        Ok(_) => if !call.ok {
            Some(Err(invalid_data->0))
        } else if call.avail_in == 0 {
            Some(Ok(len))
        } else {
            None
        },
    }
}

/// Starts compressing `len` bytes. Where there are none, that ends at once, without a call of the
/// encoder and without a write.
pub fn write<ErrType>(len: usize) -> (ended: Option<Result<usize, ErrType>>)
    ensures
        ended == if len == 0 {
            Some(Ok::<usize, ErrType>(0))
        } else {
            None
        },
{
    if len == 0 {
        Some(Ok(len))
    } else {
        None
    }
}

/// Decides, while `len` bytes are compressed, after a call of the encoder that left `avail_in` of them
/// and whose output was written with the given result: whether to return, and what, or to call it
/// again.
pub fn write_step<ErrType>(
    errors: &mut WriterErrors<ErrType>,
    written: Result<(), ErrType>,
    ok: bool,
    avail_in: usize,
    len: usize,
) -> (ended: Option<Result<usize, ErrType>>)
    requires
        written is Ok && !ok ==> old(errors).error_if_invalid_data is Some,
    ensures
        ended == write_ended(
            (CompressCall { written, ok, avail_in }),
            old(errors).error_if_invalid_data,
            len,
        ),
        final(errors).error_if_zero_bytes_written == old(errors).error_if_zero_bytes_written,
        final(errors).error_if_invalid_data == if written is Ok && !ok {
            None
        } else {
            old(errors).error_if_invalid_data
        },
{
    match written {
        Err(e) => {
            return Some(Err(e));
        },
        Ok(_) => {},
    }
    if !ok {
        return Some(Err(errors.invalid_data_error()));
    }
    if avail_in == 0 {
        return Some(Ok(len));
    }
    None
}

/// How compressing `len` bytes ends whose calls of the encoder come out as `calls`, one after the other:
/// with the first that ends it. `None` means that the encoder is to be called again.
pub open spec fn write_course<ErrType>(
    len: usize,
    calls: Seq<CompressCall<ErrType>>,
    invalid_data: Option<ErrType>,
) -> Option<Result<usize, ErrType>>
    decreases calls.len(),
{
    if len == 0 {
        Some(Ok(0))
    } else if calls.len() == 0 {
        None
    } else {
        match write_course(len, calls.drop_last(), invalid_data) {
            Some(ended) => Some(ended),
            None => write_ended(calls.last(), invalid_data, len),
        }
    }
}

/// A write is never short: where it succeeds, it has taken in the whole buffer.
pub proof fn lemma_write_never_short<ErrType>(
    len: usize,
    calls: Seq<CompressCall<ErrType>>,
    invalid_data: Option<ErrType>,
)
    ensures
        write_course(len, calls, invalid_data) matches Some(Ok(n)) ==> n == len,
    decreases calls.len(),
{
    if len > 0 && calls.len() > 0 {
        lemma_write_never_short(len, calls.drop_last(), invalid_data);
    }
}

/// An empty buffer is answered at once: no call of the encoder makes a difference.
pub proof fn lemma_empty_write<ErrType>(
    calls: Seq<CompressCall<ErrType>>,
    invalid_data: Option<ErrType>,
)
    ensures
        write_course(0, calls, invalid_data) == Some(Ok::<usize, ErrType>(0)),
{
}

} // verus!
