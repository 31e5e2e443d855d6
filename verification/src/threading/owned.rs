//! What a thread borrows and gives back: allocators, hashers and the input.
use core::marker::PhantomData;
use vstd::prelude::*;

verus! {

/// How concatenating streams went.
#[derive(Clone, Copy, PartialEq, Eq, Debug, Structural)]
pub enum BroCatliResult {
    Success,
    NeedsMoreInput,
    NeedsMoreOutput,
    BrotliFileNotCraftedForAppend,
    InvalidWindowSize,
    WindowSizeLargerThanPreviousFile,
    BrotliFileNotCraftedForConcatenation,
}

/// Why compressing on several threads failed. `Panic` is what a thread that panicked leaves behind.
#[derive(PartialEq, Eq, Debug)]
pub enum BrotliEncoderThreadError<Panic> {
    InsufficientOutputSpace,
    ConcatenationDidNotProcessFullFile,
    ConcatenationError(BroCatliResult),
    ConcatenationFinalizationError(BroCatliResult),
    OtherThreadPanic,
    ThreadExecError(Panic),
}

/// An error that can be made from what a thread that panicked leaves behind.
pub trait AnyBoxConstructor<Panic>: Sized {
    /// What is made from `data`.
    spec fn spec_new(data: Panic) -> Self;

    fn new(data: Panic) -> (error: Self)
        ensures
            error == Self::spec_new(data),
    ;
}

impl<Panic> AnyBoxConstructor<Panic> for BrotliEncoderThreadError<Panic> {
    open spec fn spec_new(data: Panic) -> Self {
        BrotliEncoderThreadError::ThreadExecError(data)
    }

    fn new(data: Panic) -> (error: Self) {
        BrotliEncoderThreadError::ThreadExecError(data)
    }
}

/// A thread that can be waited for.
pub trait Joinable<T: Send + 'static, U: Send + 'static>: Sized {
    fn join(self) -> Result<T, U>;
}

/// What threads share: it can be looked at, and taken back once the threads are done. Both fail where a
/// thread has panicked over it.
pub trait OwnedRetriever<U: Send + 'static>: Sized {
    fn view<T, F: FnOnce(&U) -> T>(&self, f: F) -> Result<T, ()>
        requires
            forall|u: &U| f.requires((u,)),
    ;

    fn unwrap(self) -> Result<U, ()>;
}

/// The compressed bytes of a chunk, at the start of the buffer that they were written to.
#[derive(PartialEq, Eq, Debug)]
pub struct CompressedFileChunk {
    data_backing: Vec<u8>,
    data_size: usize,
}

impl CompressedFileChunk {
    /// The bytes lie within the buffer.
    #[verifier::type_invariant]
    spec fn fits(&self) -> bool {
        self.data_size <= self.data_backing@.len()
    }

    /// The compressed bytes.
    pub closed spec fn spec_bytes(&self) -> Seq<u8> {
        self.data_backing@.take(self.data_size as int)
    }

    /// The first `data_size` bytes of `data_backing`.
    pub fn new(data_backing: Vec<u8>, data_size: usize) -> (chunk: CompressedFileChunk)
        requires
            data_size <= data_backing@.len(),
        ensures
            chunk.spec_bytes() == data_backing@.take(data_size as int),
    {
        CompressedFileChunk { data_backing, data_size }
    }

    /// The compressed bytes.
    pub fn bytes(&self) -> (bytes: &[u8])
        ensures
            bytes@ == self.spec_bytes(),
    {
        proof {
            use_type_invariant(self);
        }
        assert(self.data_backing@.subrange(0, self.data_size as int) =~= self.spec_bytes());
        &self.data_backing[0..self.data_size]
    }
}

/// What a thread gives back: the compressed chunk, or why there is none, and its allocator.
#[derive(Debug)]
pub struct CompressionThreadResult<Alloc, Panic> {
    pub compressed: Result<CompressedFileChunk, BrotliEncoderThreadError<Panic>>,
    pub alloc: Alloc,
}

/// Where an allocator and the extra input of a thread are: still here, with a thread that can be
/// waited for, or gone.
pub enum InternalSendAlloc<ReturnVal, ExtraInput, Alloc, Join> {
    A(Alloc, ExtraInput),
    Join(Join),
    SpawningOrJoining(PhantomData<ReturnVal>),
}

impl<ReturnVal, ExtraInput, Alloc, Join> InternalSendAlloc<ReturnVal, ExtraInput, Alloc, Join> {
    /// The allocator and the extra input, which are still here.
    pub fn unwrap_input(&mut self) -> ((alloc, extra): (&mut Alloc, &mut ExtraInput))
        requires
            *old(self) is A,
        ensures
            *old(self) == InternalSendAlloc::<ReturnVal, ExtraInput, Alloc, Join>::A(*alloc, *extra),
            *final(self) == InternalSendAlloc::<ReturnVal, ExtraInput, Alloc, Join>::A(
                *final(alloc),
                *final(extra),
            ),
    {
        match self {
            InternalSendAlloc::A(alloc, extra) => (alloc, extra),
            _ => vstd::pervasive::unreached(),
        }
    }
}

/// The allocator and the extra input of a thread.
pub struct SendAlloc<ReturnValue, ExtraInput, Alloc, Join>(
    pub InternalSendAlloc<ReturnValue, ExtraInput, Alloc, Join>,
);

impl<ReturnValue, ExtraInput, Alloc, Join> SendAlloc<ReturnValue, ExtraInput, Alloc, Join> {
    /// Holds an allocator and an extra input.
    pub fn new(alloc: Alloc, extra_input: ExtraInput) -> (slot: Self)
        ensures
            slot.0 == InternalSendAlloc::<ReturnValue, ExtraInput, Alloc, Join>::A(
                alloc,
                extra_input,
            ),
    {
        SendAlloc(InternalSendAlloc::A(alloc, extra_input))
    }

    /// What the slot holds, or `other` and `other_extra` where that is with a thread or gone.
    pub fn unwrap_or(self, other: Alloc, other_extra: ExtraInput) -> (held: (Alloc, ExtraInput))
        ensures
            held == match self.0 {
                InternalSendAlloc::A(alloc, extra_input) => (alloc, extra_input),
                _ => (other, other_extra),
            },
    {
        match self.0 {
            InternalSendAlloc::A(alloc, extra_input) => (alloc, extra_input),
            InternalSendAlloc::SpawningOrJoining(_) | InternalSendAlloc::Join(_) => (
                other,
                other_extra,
            ),
        }
    }

    /// What the slot holds, in place.
    pub fn unwrap_view_mut(&mut self) -> ((alloc, extra): (&mut Alloc, &mut ExtraInput))
        requires
            old(self).0 is A,
        ensures
            old(self).0 == InternalSendAlloc::<ReturnValue, ExtraInput, Alloc, Join>::A(
                *alloc,
                *extra,
            ),
            final(self).0 == InternalSendAlloc::<ReturnValue, ExtraInput, Alloc, Join>::A(
                *final(alloc),
                *final(extra),
            ),
    {
        self.0.unwrap_input()
    }

    /// What the slot holds.
    pub fn unwrap(self) -> (held: (Alloc, ExtraInput))
        requires
            self.0 is A,
        ensures
            self.0 == InternalSendAlloc::<ReturnValue, ExtraInput, Alloc, Join>::A(held.0, held.1),
    {
        match self.0 {
            InternalSendAlloc::A(alloc, extra_input) => (alloc, extra_input),
            InternalSendAlloc::SpawningOrJoining(_) | InternalSendAlloc::Join(
                _,
            ) => vstd::pervasive::unreached(),
        }
    }

    /// Takes what the slot holds out of it.
    pub fn replace_with_default(&mut self) -> (held: (Alloc, ExtraInput))
        requires
            old(self).0 is A,
        ensures
            old(self).0 == InternalSendAlloc::<ReturnValue, ExtraInput, Alloc, Join>::A(
                held.0,
                held.1,
            ),
            final(self).0 is SpawningOrJoining,
    {
        let mut taken = InternalSendAlloc::SpawningOrJoining(PhantomData);
        core::mem::swap(&mut self.0, &mut taken);
        match taken {
            InternalSendAlloc::A(alloc, extra_input) => (alloc, extra_input),
            InternalSendAlloc::SpawningOrJoining(_) | InternalSendAlloc::Join(
                _,
            ) => vstd::pervasive::unreached(),
        }
    }

    /// Takes the thread out of the slot, if there is one.
    pub fn take_join(&mut self) -> (join: Option<Join>)
        ensures
            match old(self).0 {
                InternalSendAlloc::Join(handle) => join == Some(handle)
                    && final(self).0 is SpawningOrJoining,
                _ => join is None && *final(self) == *old(self),
            },
    {
        let mut taken = InternalSendAlloc::SpawningOrJoining(PhantomData);
        core::mem::swap(&mut self.0, &mut taken);
        match taken {
            InternalSendAlloc::Join(handle) => Some(handle),
            other => {
                self.0 = other;
                None
            },
        }
    }

    /// Puts an allocator and an extra input back.
    pub fn give_back(&mut self, alloc: Alloc, extra_input: ExtraInput)
        ensures
            final(self).0 == InternalSendAlloc::<ReturnValue, ExtraInput, Alloc, Join>::A(
                alloc,
                extra_input,
            ),
    {
        self.0 = InternalSendAlloc::A(alloc, extra_input);
    }
}

/// An item that is here or lent out.
pub enum InternalOwned<T> {
    Item(T),
    Borrowed,
}

/// An item that is here or lent out.
pub struct Owned<T>(pub InternalOwned<T>);

/// The bytes of an owned input, if it is here.
pub open spec fn owned_bytes(owned: Owned<Vec<u8>>) -> Option<Seq<u8>> {
    match owned.0 {
        InternalOwned::Item(input) => Some(input@),
        InternalOwned::Borrowed => None,
    }
}

impl<T> Owned<T> {
    /// Holds an item.
    pub fn new(data: T) -> (owned: Self)
        ensures
            owned.0 == InternalOwned::Item(data),
    {
        Owned(InternalOwned::Item(data))
    }

    /// The item, or `other` where it is lent out.
    pub fn unwrap_or(self, other: T) -> (item: T)
        ensures
            item == match self.0 {
                InternalOwned::Item(x) => x,
                InternalOwned::Borrowed => other,
            },
    {
        match self.0 {
            InternalOwned::Item(x) => x,
            InternalOwned::Borrowed => other,
        }
    }

    /// The item.
    pub fn unwrap(self) -> (item: T)
        requires
            self.0 is Item,
        ensures
            self.0 == InternalOwned::Item(item),
    {
        match self.0 {
            InternalOwned::Item(x) => x,
            InternalOwned::Borrowed => vstd::pervasive::unreached(),
        }
    }

    /// The item, in place.
    pub fn view(&self) -> (item: &T)
        requires
            self.0 is Item,
        ensures
            self.0 == InternalOwned::Item(*item),
    {
        match &self.0 {
            InternalOwned::Item(x) => x,
            InternalOwned::Borrowed => vstd::pervasive::unreached(),
        }
    }

    /// Takes the item and leaves it lent out.
    pub fn lend(&mut self) -> (item: T)
        requires
            old(self).0 is Item,
        ensures
            old(self).0 == InternalOwned::Item(item),
            final(self).0 is Borrowed,
    {
        let mut taken = InternalOwned::Borrowed;
        core::mem::swap(&mut self.0, &mut taken);
        Owned(taken).unwrap()
    }
}

} // verus!
