use simd_brotli::params::BrotliEncoderParams;
use simd_brotli::threading::chunks::{
    chunk_params, feed_range, get_range, part_result, PartProgress,
};
use simd_brotli::threading::merge::{
    abandon, join_slot, last_result, return_input, set_pending_error, slot_result, Catenator,
    CompressMulti, CompressMultiScoped, Merge,
};
use simd_brotli::threading::owned::{
    AnyBoxConstructor, BroCatliResult, BrotliEncoderThreadError, CompressedFileChunk,
    CompressionThreadResult, InternalOwned, InternalSendAlloc, Joinable, Owned, OwnedRetriever,
    SendAlloc,
};
use simd_brotli::threading::schedule::{build_schedule, CompressMultiSlice, Step};

type ThreadError = BrotliEncoderThreadError<String>;
type ThreadResult = CompressionThreadResult<u8, String>;

/// A thread that has already ended.
struct Ended(Result<ThreadResult, ThreadError>);

impl Joinable<ThreadResult, ThreadError> for Ended {
    fn join(self) -> Result<ThreadResult, ThreadError> {
        self.0
    }
}

type Slot = SendAlloc<ThreadResult, &'static str, u8, Ended>;

/// An input that can be taken back, or not.
struct Shared(Result<(Vec<u8>, BrotliEncoderParams), ()>);

impl OwnedRetriever<(Vec<u8>, BrotliEncoderParams)> for Shared {
    fn view<T, F: FnOnce(&(Vec<u8>, BrotliEncoderParams)) -> T>(&self, f: F) -> Result<T, ()> {
        self.0.as_ref().map(f).map_err(|_| ())
    }
    fn unwrap(self) -> Result<(Vec<u8>, BrotliEncoderParams), ()> {
        self.0
    }
}

/// What an [`Appender`] is to report, and what it was given.
struct Log {
    results: Vec<BroCatliResult>,
    finish: BroCatliResult,
    begun: usize,
    finished: bool,
    output: Vec<u8>,
}

fn log(results: &[BroCatliResult]) -> Log {
    Log {
        results: results.to_vec(),
        finish: BroCatliResult::Success,
        begun: 0,
        finished: false,
        output: Vec::new(),
    }
}

/// Puts chunks into the output as they are, with the given results.
struct Appender<'a>(&'a mut Log);

impl Catenator for Appender<'_> {
    fn new_brotli_file(self) -> Self {
        self.0.begun += 1;
        self
    }
    fn stream(self, in_bytes: &[u8]) -> (Self, BroCatliResult) {
        self.0.output.extend_from_slice(in_bytes);
        let result = self.0.results.get(self.0.begun - 1).copied();
        (self, result.unwrap_or(BroCatliResult::Success))
    }
    fn finish(self) -> (BroCatliResult, usize) {
        self.0.output.push(3);
        self.0.finished = true;
        (self.0.finish, self.0.output.len())
    }
}

fn running(joined: Result<ThreadResult, ThreadError>) -> Slot {
    SendAlloc(InternalSendAlloc::Join(Ended(joined)))
}

/// A slot whose allocator is with the thread that runs the test.
fn lent() -> Slot {
    let mut slot: Slot = SendAlloc::new(0, "hasher");
    slot.replace_with_default();
    slot
}

fn params() -> BrotliEncoderParams {
    BrotliEncoderParams {
        quality: 5,
        lgwin: 20,
        favor_cpu_efficiency: true,
        catable: false,
        appendable: false,
        magic_number: true,
    }
}

fn gone() -> ThreadError {
    ThreadError::new("gone".to_string())
}

fn held(slots: Vec<Slot>) -> Vec<Option<u8>> {
    slots
        .into_iter()
        .map(|slot| match slot.0 {
            InternalSendAlloc::A(alloc, extra) => {
                assert_eq!(extra, "");
                Some(alloc)
            }
            InternalSendAlloc::Join(_) => panic!("still running"),
            InternalSendAlloc::SpawningOrJoining(_) => None,
        })
        .collect()
}

fn compressed(alloc: u8, bytes: &[u8]) -> ThreadResult {
    part_result(Ok(bytes.len()), bytes.to_vec(), alloc)
}

#[test]
fn chunks_cover_the_input() {
    for size in [0usize, 1, 5, 16, 17, 100] {
        for n in 1..9usize {
            let mut at = 0;
            for i in 0..n {
                let range = get_range(i, n, size);
                assert_eq!(range.start, at);
                assert!(range.len() == size / n || range.len() == size / n + 1);
                at = range.end;
            }
            assert_eq!(at, size);
        }
    }
    assert_eq!(get_range(1, 3, 10), 3..6);
}

#[test]
fn hashers_are_fed_side_by_side() {
    assert_eq!(feed_range(0..10, 4), Some(0..7));
    assert_eq!(feed_range(10..20, 4), Some(7..17));
    assert_eq!(feed_range(20..23, 4), None);
    assert_eq!(feed_range(2..10, 4), Some(0..7));
    assert_eq!(feed_range(0..10, 1), Some(0..10));
    assert_eq!(feed_range(0..10, 0), None);
}

#[test]
fn only_the_first_chunk_keeps_its_parameters() {
    let params = params();
    let first = BrotliEncoderParams { appendable: true, ..params };
    assert_eq!(chunk_params(&params, 0), first);
    let other = BrotliEncoderParams { catable: true, magic_number: false, ..first };
    assert_eq!(chunk_params(&params, 1), other);
    assert_eq!(chunk_params(&params, 7), other);
}

#[test]
fn a_chunk_is_compressed_call_by_call() {
    let input: Vec<u8> = (0..20).collect();
    let mut part = PartProgress::new(1, 2, 20);
    assert_eq!(part.left(), 10);
    assert_eq!(part.bytes(&input), &input[10..20]);
    assert_eq!(part.dictionary(&input), Some(&input[..10]));
    assert_eq!(part.step::<String>(false, 4, 100, 7), None);
    assert_eq!(part.bytes(&input), &input[14..20]);
    assert_eq!(part.dictionary(&input), Some(&input[..10]));
    assert_eq!(part.step::<String>(true, 6, 90, 17), Some(Ok(17)));
    assert_eq!(part.left(), 0);
    let mut part = PartProgress::new(0, 2, 20);
    assert_eq!(part.bytes(&input), &input[..10]);
    assert_eq!(part.dictionary(&input), None);
    assert_eq!(
        part.step::<String>(false, 3, 0, 50),
        Some(Err(ThreadError::InsufficientOutputSpace))
    );
    assert_eq!(part.step::<String>(true, 0, 0, 50), Some(Ok(50)));
}

#[test]
fn a_chunk_that_failed_gives_its_allocator_back() {
    let result: ThreadResult = part_result(Err(ThreadError::InsufficientOutputSpace), vec![1], 9);
    assert_eq!(result.alloc, 9);
    assert_eq!(result.compressed, Err(ThreadError::InsufficientOutputSpace));
    let result: ThreadResult = part_result(Ok(2), vec![1, 2, 3], 9);
    assert_eq!(result.compressed.unwrap().bytes(), &[1, 2]);
    assert_eq!(CompressedFileChunk::new(vec![7; 4], 0).bytes(), &[] as &[u8]);
}

#[test]
fn slots_hold_and_lend() {
    let mut slot: Slot = SendAlloc::new(3, "hasher");
    {
        let (alloc, extra) = slot.unwrap_view_mut();
        assert_eq!((*alloc, *extra), (3, "hasher"));
        *extra = "other";
    }
    {
        let (alloc, _) = slot.0.unwrap_input();
        *alloc = 4;
    }
    assert!(slot.take_join().is_none());
    assert_eq!(slot.replace_with_default(), (4, "other"));
    assert!(matches!(slot.0, InternalSendAlloc::SpawningOrJoining(_)));
    assert_eq!(slot.unwrap_or(1, "else"), (1, "else"));
    let slot: Slot = SendAlloc::new(3, "hasher");
    assert_eq!(slot.unwrap_or(1, "else"), (3, "hasher"));
    let slot: Slot = SendAlloc::new(3, "hasher");
    assert_eq!(slot.unwrap(), (3, "hasher"));
}

#[test]
fn owned_items_are_lent() {
    let mut owned = Owned::new(vec![1, 2]);
    assert_eq!(owned.view(), &vec![1, 2]);
    assert_eq!(owned.lend(), vec![1, 2]);
    assert!(matches!(owned.0, InternalOwned::Borrowed));
    assert_eq!(owned.unwrap_or(vec![7]), vec![7]);
    assert_eq!(Owned::new(5).unwrap_or(7), 5);
    assert_eq!(Owned::new(5).unwrap(), 5);
}

#[test]
fn joining_a_slot() {
    let mut slot = running(Ok(compressed(6, b"ab")));
    assert_eq!(join_slot(&mut slot).unwrap().alloc, 6);
    assert!(matches!(slot.0, InternalSendAlloc::SpawningOrJoining(_)));
    slot.give_back(6, "blank");
    assert_eq!(slot.unwrap(), (6, "blank"));
    let mut slot = running(Err(gone()));
    assert_eq!(
        join_slot(&mut slot).unwrap_err(),
        ThreadError::ThreadExecError("gone".to_string())
    );
    assert!(matches!(slot.0, InternalSendAlloc::SpawningOrJoining(_)));
}

#[test]
fn one_thread_does_everything_itself() {
    assert_eq!(build_schedule(1, true), vec![Step::Run { index: 0, with_hasher: false }]);
}

#[test]
fn chunks_start_at_once_where_each_hashes_for_itself() {
    assert_eq!(
        build_schedule(4, false),
        vec![
            Step::Spawn { index: 0, with_hasher: false },
            Step::Spawn { index: 1, with_hasher: false },
            Step::Spawn { index: 2, with_hasher: false },
            Step::Run { index: 3, with_hasher: false },
        ]
    );
    assert_eq!(
        build_schedule(2, false),
        vec![
            Step::Spawn { index: 0, with_hasher: false },
            Step::Run { index: 1, with_hasher: false },
        ]
    );
}

#[test]
fn chunks_start_as_the_hasher_becomes_ready() {
    assert_eq!(
        build_schedule(4, true),
        vec![
            Step::Spawn { index: 0, with_hasher: false },
            Step::SetUpHasher,
            Step::Feed { chunk: 0 },
            Step::Spawn { index: 1, with_hasher: true },
            Step::Feed { chunk: 1 },
            Step::Spawn { index: 2, with_hasher: true },
            Step::Feed { chunk: 2 },
            Step::Run { index: 3, with_hasher: true },
        ]
    );
    assert_eq!(
        build_schedule(2, true),
        vec![
            Step::Spawn { index: 0, with_hasher: false },
            Step::SetUpHasher,
            Step::Feed { chunk: 0 },
            Step::Run { index: 1, with_hasher: true },
        ]
    );
}

#[test]
fn the_first_chunk_gets_no_hasher() {
    for n in 1..9usize {
        for favor in [false, true] {
            for step in build_schedule(n, favor) {
                if let Step::Spawn { index, with_hasher } | Step::Run { index, with_hasher } = step {
                    assert_eq!(with_hasher, index > 0 && favor);
                }
            }
        }
    }
}

#[test]
fn shared_and_borrowed_inputs_end_alike() {
    for replies in [vec![], vec![BroCatliResult::Success, BroCatliResult::NeedsMoreOutput]] {
        let mut owned = Owned::new(vec![1u8]);
        let input = owned.lend();
        let mut slots =
            vec![running(Ok(compressed(1, b"a"))), running(Ok(compressed(2, b"bc"))), lent()];
        let mut shared = log(&replies);
        let first = CompressMulti(
            &mut owned,
            &mut slots,
            Ok(compressed(3, b"d")),
            Shared(Ok((input, params()))),
            Appender(&mut shared),
        );
        // Other allocators make no difference.
        let mut allocators = vec![None; 3];
        let results =
            vec![Some(compressed(7, b"a")), Some(compressed(8, b"bc")), Some(compressed(9, b"d"))];
        let mut scoped = log(&replies);
        let second = CompressMultiScoped(&mut allocators, results, Appender(&mut scoped));
        assert_eq!(first, second);
        assert_eq!(shared.output, scoped.output);
    }
}

#[test]
fn every_chunk_is_compressed_once() {
    for n in 1..20usize {
        for favor in [false, true] {
            let chunks: Vec<usize> = build_schedule(n, favor)
                .iter()
                .filter_map(|step| match step {
                    Step::Spawn { index, .. } | Step::Run { index, .. } => Some(*index),
                    _ => None,
                })
                .collect();
            assert_eq!(chunks, (0..n).collect::<Vec<_>>());
        }
    }
}

#[test]
fn a_slice_is_copied_while_the_first_allocator_is_here() {
    let mut slot: Slot = SendAlloc::new(3, "hasher");
    assert_eq!(CompressMultiSlice(b"abc", &slot).unwrap(), b"abc".to_vec());
    slot.replace_with_default();
    assert_eq!(CompressMultiSlice(b"abc", &slot).unwrap(), Vec::<u8>::new());
}

#[test]
fn a_merge_step_by_step() {
    let mut merge: Merge<u8, String> = Merge::new();
    let chunk = merge.take(Ok(compressed(0, b"a"))).unwrap();
    assert_eq!(chunk.bytes(), b"a");
    merge.concatenated(BroCatliResult::NeedsMoreInput);
    assert!(merge.take(slot_result(Some(compressed(1, b"b")))).is_some());
    merge.concatenated(BroCatliResult::NeedsMoreOutput);
    assert!(merge.take(Ok(compressed(2, b"c"))).is_none());
    assert!(merge.take(Err(gone())).is_none());
    assert!(merge.take(last_result(Err(()))).is_none());
    assert_eq!(
        merge.conclude(BroCatliResult::Success, 42),
        Err(ThreadError::InsufficientOutputSpace)
    );
    assert_eq!(merge.into_returned(), vec![Some(0), Some(1), Some(2), None, None]);
}

#[test]
fn shared_inputs_are_compressed_and_given_back() {
    let mut owned = Owned::new(vec![1u8, 2, 3]);
    let input = owned.lend();
    let mut slots = vec![
        running(Ok(compressed(10, b"ab"))),
        running(Ok(compressed(11, b"cd"))),
        lent(),
    ];
    let mut cat = log(&[BroCatliResult::NeedsMoreInput]);
    let result = CompressMulti(
        &mut owned,
        &mut slots,
        Ok(compressed(12, b"ef")),
        Shared(Ok((input, params()))),
        Appender(&mut cat),
    );
    assert_eq!(result, Ok(7));
    assert_eq!(cat.output, b"abcdef\x03");
    assert_eq!(cat.begun, 3);
    assert_eq!(held(slots), vec![Some(10), Some(11), Some(12)]);
    assert_eq!(owned.unwrap(), vec![1, 2, 3]);
}

#[test]
fn a_lost_thread_takes_its_allocator_and_the_others_are_waited_for() {
    let mut owned = Owned::new(vec![1u8]);
    let input = owned.lend();
    let failed: ThreadResult = part_result(Err(ThreadError::InsufficientOutputSpace), vec![], 12);
    let mut slots = vec![
        running(Ok(compressed(10, b"ab"))),
        running(Err(gone())),
        running(Ok(failed)),
        lent(),
    ];
    let mut cat = log(&[]);
    let result = CompressMulti(
        &mut owned,
        &mut slots,
        Err(()),
        Shared(Ok((input, params()))),
        Appender(&mut cat),
    );
    assert_eq!(result, Err(gone()));
    assert_eq!(cat.begun, 1);
    assert!(!cat.finished);
    assert_eq!(held(slots), vec![Some(10), None, Some(12), None]);
    assert_eq!(owned.unwrap(), vec![1]);
}

#[test]
fn an_input_that_cannot_be_had_back_is_a_failure() {
    let mut owned: Owned<Vec<u8>> = Owned(InternalOwned::Borrowed);
    let mut slots = vec![lent()];
    let result = CompressMulti(
        &mut owned,
        &mut slots,
        Ok(compressed(1, b"a")),
        Shared(Err(())),
        Appender(&mut log(&[])),
    );
    assert_eq!(result, Err(ThreadError::OtherThreadPanic));
    assert_eq!(held(slots), vec![Some(1)]);
    assert!(matches!(owned.0, InternalOwned::Borrowed));
}

#[test]
fn borrowed_inputs_give_the_same_bytes() {
    let mut allocators = vec![None, None, None];
    let mut cat = log(&[BroCatliResult::NeedsMoreInput]);
    let results = vec![
        Some(compressed(10, b"ab")),
        Some(compressed(11, b"cd")),
        Some(compressed(12, b"ef")),
    ];
    let result: Result<usize, ThreadError> =
        CompressMultiScoped(&mut allocators, results, Appender(&mut cat));
    assert_eq!(result, Ok(7));
    assert_eq!(cat.output, b"abcdef\x03");
    assert_eq!(allocators, vec![Some(10), Some(11), Some(12)]);
}

#[test]
fn an_empty_slot_means_a_panic() {
    let mut allocators = vec![None, None, None];
    let mut cat = log(&[]);
    let results = vec![Some(compressed(10, b"ab")), None, Some(compressed(12, b"ef"))];
    let result: Result<usize, ThreadError> =
        CompressMultiScoped(&mut allocators, results, Appender(&mut cat));
    assert_eq!(result, Err(ThreadError::OtherThreadPanic));
    assert_eq!(cat.begun, 1);
    assert_eq!(allocators, vec![Some(10), None, Some(12)]);
}

#[test]
fn ways_for_concatenating_to_fail() {
    for (results, finish, expected) in [
        (
            vec![BroCatliResult::NeedsMoreOutput],
            BroCatliResult::Success,
            ThreadError::InsufficientOutputSpace,
        ),
        (
            vec![BroCatliResult::Success, BroCatliResult::InvalidWindowSize],
            BroCatliResult::Success,
            ThreadError::ConcatenationError(BroCatliResult::InvalidWindowSize),
        ),
        (
            vec![],
            BroCatliResult::NeedsMoreOutput,
            ThreadError::ConcatenationFinalizationError(BroCatliResult::NeedsMoreOutput),
        ),
        (
            vec![],
            BroCatliResult::NeedsMoreInput,
            ThreadError::ConcatenationFinalizationError(BroCatliResult::NeedsMoreInput),
        ),
    ] {
        let mut allocators = vec![None, None];
        let mut cat = Log { finish, ..log(&results) };
        let chunks = vec![Some(compressed(1, b"a")), Some(compressed(2, b"b"))];
        let result: Result<usize, ThreadError> =
            CompressMultiScoped(&mut allocators, chunks, Appender(&mut cat));
        assert_eq!(result, Err(expected));
        assert_eq!(allocators, vec![Some(1), Some(2)]);
    }
}

#[test]
fn a_pending_error_stays() {
    let mut pending: Option<ThreadError> = None;
    set_pending_error(&mut pending, ThreadError::OtherThreadPanic);
    set_pending_error(&mut pending, ThreadError::ConcatenationDidNotProcessFullFile);
    assert_eq!(pending, Some(ThreadError::OtherThreadPanic));
}

#[test]
fn giving_up_waits_for_every_thread() {
    let mut slots = vec![running(Ok(compressed(10, b"ab"))), lent()];
    let error: ThreadError = abandon(&mut slots);
    assert_eq!(error, ThreadError::OtherThreadPanic);
    assert_eq!(held(slots), vec![Some(10), None]);

    let mut slots = vec![
        running(Err(ThreadError::new("first".to_string()))),
        running(Ok(compressed(11, b"ab"))),
        running(Err(ThreadError::new("last".to_string()))),
        SendAlloc::new(13, ""),
    ];
    let error: ThreadError = abandon(&mut slots);
    assert_eq!(error, ThreadError::ThreadExecError("last".to_string()));
    assert_eq!(held(slots), vec![None, Some(11), None, Some(13)]);
}

#[test]
fn the_input_goes_back_to_its_owner() {
    let mut owned: Owned<u8> = Owned(InternalOwned::Borrowed);
    assert_eq!(return_input::<u8, String>(&mut owned, Ok(9), Ok(5)), Ok(5));
    assert_eq!(owned.unwrap(), 9);
    let mut owned: Owned<u8> = Owned(InternalOwned::Borrowed);
    assert_eq!(
        return_input::<u8, String>(&mut owned, Err(()), Ok(5)),
        Err(ThreadError::OtherThreadPanic)
    );
    assert_eq!(
        return_input::<u8, String>(&mut owned, Err(()), Err(ThreadError::InsufficientOutputSpace)),
        Err(ThreadError::InsufficientOutputSpace)
    );
    assert!(matches!(owned.0, InternalOwned::Borrowed));
}
