//! Laws of lending and giving back.
use crate::threading::owned::{
    AnyBoxConstructor, BrotliEncoderThreadError, CompressedFileChunk, InternalOwned,
    InternalSendAlloc, Owned, SendAlloc,
};
use crate::threading::schedule::CompressMultiSlice;
use vstd::prelude::*;

verus! {

/// What an owner lends out is what it was given, and then it has it no more.
pub proof fn law_lend<T>(data: T, owned: &mut Owned<T>, item: T)
    requires
        call_ensures(Owned::<T>::new, (data,), *old(owned)),
        call_ensures(Owned::<T>::lend, (owned,), item),
    ensures
        item == data,
        final(owned).0 is Borrowed,
{
}

/// An owner gives out what it has, and something else only where it has lent that out.
pub proof fn law_unwrap_or<T>(owned: Owned<T>, other: T, item: T)
    requires
        call_ensures(Owned::<T>::unwrap_or, (owned, other), item),
    ensures
        owned.0 matches InternalOwned::Item(held) ==> item == held,
        owned.0 is Borrowed ==> item == other,
{
}

/// A thread is taken out of a slot exactly if there is one, and the slot is empty then; what else a slot
/// holds stays.
pub proof fn law_take_join<ReturnValue, ExtraInput, Alloc, Join>(
    slot: &mut SendAlloc<ReturnValue, ExtraInput, Alloc, Join>,
    join: Option<Join>,
)
    requires
        call_ensures(
            SendAlloc::<ReturnValue, ExtraInput, Alloc, Join>::take_join,
            (slot,),
            join,
        ),
    ensures
        join is Some <==> old(slot).0 is Join,
        join matches Some(handle) ==> old(slot).0 == InternalSendAlloc::<
            ReturnValue,
            ExtraInput,
            Alloc,
            Join,
        >::Join(handle) && final(slot).0 is SpawningOrJoining,
        join is None ==> final(slot).0 == old(slot).0,
{
}

/// What is given back to a slot, or was there from the start, can be taken out of it, and then the slot is
/// empty.
pub proof fn law_slot_holds<ReturnValue, ExtraInput, Alloc, Join>(
    slot: &mut SendAlloc<ReturnValue, ExtraInput, Alloc, Join>,
    again: &mut SendAlloc<ReturnValue, ExtraInput, Alloc, Join>,
    alloc: Alloc,
    extra: ExtraInput,
    held: (Alloc, ExtraInput),
)
    requires
        call_ensures(
            SendAlloc::<ReturnValue, ExtraInput, Alloc, Join>::give_back,
            (slot, alloc, extra),
            (),
        ),
        *old(again) == *final(slot),
        call_ensures(
            SendAlloc::<ReturnValue, ExtraInput, Alloc, Join>::replace_with_default,
            (again,),
            held,
        ),
    ensures
        held == (alloc, extra),
        final(again).0 is SpawningOrJoining,
{
}

/// A new slot holds what it was made with.
pub proof fn law_new_slot<ReturnValue, ExtraInput, Alloc, Join>(
    alloc: Alloc,
    extra: ExtraInput,
    slot: SendAlloc<ReturnValue, ExtraInput, Alloc, Join>,
    other: Alloc,
    other_extra: ExtraInput,
    held: (Alloc, ExtraInput),
)
    requires
        call_ensures(
            SendAlloc::<ReturnValue, ExtraInput, Alloc, Join>::new,
            (alloc, extra),
            slot,
        ),
        call_ensures(
            SendAlloc::<ReturnValue, ExtraInput, Alloc, Join>::unwrap_or,
            (slot, other, other_extra),
            held,
        ),
    ensures
        held == (alloc, extra),
{
}

/// What a slot holds can be changed in place.
pub proof fn law_slot_in_place<ReturnValue, ExtraInput, Alloc, Join>(
    slot: &mut SendAlloc<ReturnValue, ExtraInput, Alloc, Join>,
    alloc: &mut Alloc,
    extra: &mut ExtraInput,
    inner: &mut InternalSendAlloc<ReturnValue, ExtraInput, Alloc, Join>,
    inner_alloc: &mut Alloc,
    inner_extra: &mut ExtraInput,
)
    requires
        call_ensures(
            SendAlloc::<ReturnValue, ExtraInput, Alloc, Join>::unwrap_view_mut,
            (slot,),
            (alloc, extra),
        ),
        call_ensures(
            InternalSendAlloc::<ReturnValue, ExtraInput, Alloc, Join>::unwrap_input,
            (inner,),
            (inner_alloc, inner_extra),
        ),
    ensures
        old(slot).0 == InternalSendAlloc::<ReturnValue, ExtraInput, Alloc, Join>::A(
            *old(alloc),
            *old(extra),
        ),
        final(slot).0 == InternalSendAlloc::<ReturnValue, ExtraInput, Alloc, Join>::A(
            *final(alloc),
            *final(extra),
        ),
        *old(inner) == InternalSendAlloc::<ReturnValue, ExtraInput, Alloc, Join>::A(
            *old(inner_alloc),
            *old(inner_extra),
        ),
        *final(inner) == InternalSendAlloc::<ReturnValue, ExtraInput, Alloc, Join>::A(
            *final(inner_alloc),
            *final(inner_extra),
        ),
{
}

/// A slot that holds something gives that out, and another one what it is told to.
pub proof fn law_slot_gives<ReturnValue, ExtraInput, Alloc, Join>(
    slot: SendAlloc<ReturnValue, ExtraInput, Alloc, Join>,
    given: (Alloc, ExtraInput),
    other: SendAlloc<ReturnValue, ExtraInput, Alloc, Join>,
    alloc: Alloc,
    extra: ExtraInput,
    held: (Alloc, ExtraInput),
)
    requires
        call_ensures(SendAlloc::<ReturnValue, ExtraInput, Alloc, Join>::unwrap, (slot,), given),
        call_ensures(
            SendAlloc::<ReturnValue, ExtraInput, Alloc, Join>::unwrap_or,
            (other, alloc, extra),
            held,
        ),
    ensures
        slot.0 == InternalSendAlloc::<ReturnValue, ExtraInput, Alloc, Join>::A(given.0, given.1),
        !(other.0 is A) ==> held == (alloc, extra),
        other.0 matches InternalSendAlloc::A(a, e) ==> held == (a, e),
{
}

/// What a thread that panicked leaves behind goes into the error that is made of it.
pub proof fn law_panic_error<Panic>(data: Panic)
    ensures
        <BrotliEncoderThreadError<Panic> as AnyBoxConstructor<Panic>>::spec_new(data)
            == BrotliEncoderThreadError::ThreadExecError(data),
{
}

/// An owner shows what it has, and that is what it gives out, as a loan or for good.
pub proof fn law_owner_shows<T>(owned: Owned<T>, item: &T, given: T, lender: &mut Owned<T>, lent: T)
    requires
        call_ensures(Owned::<T>::view, (&owned,), item),
        call_ensures(Owned::<T>::unwrap, (owned,), given),
        *old(lender) == owned,
        call_ensures(Owned::<T>::lend, (lender,), lent),
    ensures
        owned.0 == InternalOwned::Item(*item),
        given == *item,
        lent == *item,
        final(lender).0 is Borrowed,
{
}

/// A chunk has the bytes that were written to its buffer, and no others.
pub proof fn law_chunk_bytes(data: Vec<u8>, size: usize, chunk: CompressedFileChunk, bytes: &[u8])
    requires
        size <= data@.len(),
        call_ensures(CompressedFileChunk::new, (data, size), chunk),
        call_ensures(CompressedFileChunk::bytes, (&chunk,), bytes),
    ensures
        bytes@.len() == size,
        forall|i: int| 0 <= i < size ==> #[trigger] bytes@[i] == data@[i],
{
}

/// A slice is compressed as a copy of it, if the first slot has an allocator.
pub proof fn law_slice_copy<ReturnValue, ExtraInput, Alloc, Join>(
    slice: &[u8],
    first: SendAlloc<ReturnValue, ExtraInput, Alloc, Join>,
    owned: Owned<Vec<u8>>,
)
    requires
        call_ensures(
            CompressMultiSlice::<ReturnValue, ExtraInput, Alloc, Join>,
            (slice, &first),
            owned,
        ),
    ensures
        owned.0 is Item,
        first.0 is A ==> owned.0->Item_0@ == slice@,
        !(first.0 is A) ==> owned.0->Item_0@.len() == 0,
{
}

} // verus!
