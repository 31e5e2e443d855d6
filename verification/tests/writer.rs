use simd_brotli::writer::{
    buffer_size_or_default, flush_or_close, without_progress, write_all, write_step,
    BrotliEncoderOperation, EncoderCall, WriteStep, WriterErrors,
};

fn errors() -> WriterErrors<&'static str> {
    WriterErrors::new("invalid", "zero")
}

const FLUSH: BrotliEncoderOperation = BrotliEncoderOperation::BROTLI_OPERATION_FLUSH;
const FINISH: BrotliEncoderOperation = BrotliEncoderOperation::BROTLI_OPERATION_FINISH;

#[test]
fn no_buffer_size_means_the_default() {
    assert_eq!(buffer_size_or_default(0), 4096);
    assert_eq!(buffer_size_or_default(4096), 4096);
    assert_eq!(buffer_size_or_default(1), 1);
    assert_eq!(buffer_size_or_default(65536), 65536);
}

#[test]
fn a_buffer_is_written_part_by_part() {
    let (mut state, step) = write_all::<&str>(10);
    assert_eq!(step, WriteStep::Write { from: 0 });
    assert_eq!(state.wrote::<&str>(Ok(4)), WriteStep::Write { from: 4 });
    assert_eq!(state.wrote::<&str>(Ok(5)), WriteStep::Write { from: 9 });
    assert_eq!(state.wrote::<&str>(Ok(1)), WriteStep::Done { result: Ok(()) });
    assert_eq!(state.next::<&str>(), WriteStep::Done { result: Ok(()) });
}

#[test]
fn nothing_to_write_is_done() {
    let (_, step) = write_all::<&str>(0);
    assert_eq!(step, WriteStep::Done { result: Ok(()) });
}

#[test]
fn an_error_ends_writing() {
    let (mut state, _) = write_all::<&str>(10);
    assert_eq!(state.wrote(Err("broken")), WriteStep::Done { result: Err("broken") });
}

#[test]
fn a_write_of_nothing_asks_for_an_error() {
    let (mut state, _) = write_all::<&str>(10);
    assert_eq!(state.wrote::<&str>(Ok(0)), WriteStep::AskForError);
    assert_eq!(without_progress(Some("zero")), Err("zero"));
    assert_eq!(without_progress::<&str>(None), Ok(()));
}

#[test]
fn errors_are_given_once() {
    let mut errors = errors();
    assert_eq!(errors.zero_bytes_error(), Some("zero"));
    assert_eq!(errors.error_if_invalid_data, Some("invalid"));
    assert_eq!(errors.zero_bytes_error(), Some("invalid"));
    assert_eq!(errors.zero_bytes_error(), None);
    let mut errors = WriterErrors::new("invalid", "zero");
    assert_eq!(errors.invalid_data_error(), "invalid");
    assert_eq!(errors.zero_bytes_error(), Some("zero"));
}

#[test]
fn a_flush_goes_on_while_there_is_output() {
    let mut errors = errors();
    let call = EncoderCall { ok: true, has_more_output: true, is_finished: true };
    assert_eq!(flush_or_close(&mut errors, FLUSH, Ok(()), call), None);
    let call = EncoderCall { has_more_output: false, is_finished: false, ..call };
    assert_eq!(flush_or_close(&mut errors, FLUSH, Ok(()), call), Some(Ok(())));
}

#[test]
fn finishing_goes_on_until_the_stream_is_finished() {
    let mut errors = errors();
    let call = EncoderCall { ok: true, has_more_output: false, is_finished: false };
    assert_eq!(flush_or_close(&mut errors, FINISH, Ok(()), call), None);
    let call = EncoderCall { is_finished: true, ..call };
    assert_eq!(flush_or_close(&mut errors, FINISH, Ok(()), call), Some(Ok(())));
}

#[test]
fn an_error_of_the_write_comes_before_one_of_the_encoder() {
    let mut errors = errors();
    let call = EncoderCall { ok: false, has_more_output: false, is_finished: false };
    assert_eq!(flush_or_close(&mut errors, FLUSH, Err("broken"), call), Some(Err("broken")));
    assert_eq!(errors.error_if_invalid_data, Some("invalid"));
    assert_eq!(flush_or_close(&mut errors, FLUSH, Ok(()), call), Some(Err("invalid")));
    assert_eq!(errors.error_if_invalid_data, None);
}

#[test]
fn compressing_goes_on_until_all_is_read() {
    let mut errors = errors();
    assert_eq!(write_step(&mut errors, Ok(()), true, 3, 10), None);
    assert_eq!(write_step(&mut errors, Ok(()), true, 0, 10), Some(Ok(10)));
    assert_eq!(write_step(&mut errors, Err("broken"), true, 0, 10), Some(Err("broken")));
    assert_eq!(write_step(&mut errors, Ok(()), false, 0, 10), Some(Err("invalid")));
}

#[test]
fn an_empty_buffer_is_answered_at_once() {
    assert_eq!(simd_brotli::writer::write::<&str>(0), Some(Ok(0)));
    assert_eq!(simd_brotli::writer::write::<&str>(1), None);
    assert_eq!(simd_brotli::writer::write::<&str>(usize::MAX), None);
}
