//! What is done for the chunks of an input, and in which order.
use super::owned::{owned_bytes, InternalSendAlloc, Owned, SendAlloc};
use vstd::prelude::*;

verus! {

/// One thing to do.
#[derive(Clone, Copy, PartialEq, Eq, Debug, Structural)]
pub enum Step {
    /// Start compressing chunk `index` on another thread, with a copy of the hasher or without.
    Spawn { index: usize, with_hasher: bool },
    /// Set up a hasher.
    SetUpHasher,
    /// Let the hasher take in chunk `chunk`.
    Feed { chunk: usize },
    /// Compress chunk `index` here, with the hasher or without.
    Run { index: usize, with_hasher: bool },
}

/// The steps for the chunks from the second up to chunk `t`, of `n`, where the input is hashed once:
/// the hasher takes in a chunk, and the next one gets what it knows by now. The last chunk is not
/// started on another thread.
pub open spec fn hashed_steps(n: int, t: int) -> Seq<Step>
    decreases t,
{
    if t <= 1 {
        seq![Step::SetUpHasher]
    } else {
        let fed = hashed_steps(n, t - 1).push(Step::Feed { chunk: (t - 2) as usize });
        if t != n {
            fed.push(Step::Spawn { index: (t - 1) as usize, with_hasher: true })
        } else {
            fed
        }
    }
}

/// The steps for the chunks from the second up to chunk `t` where each chunk hashes for itself.
pub open spec fn plain_steps(t: int) -> Seq<Step>
    decreases t,
{
    if t <= 1 {
        Seq::empty()
    } else {
        plain_steps(t - 1).push(Step::Spawn { index: (t - 1) as usize, with_hasher: false })
    }
}

/// The steps for the chunks between the first and the last.
pub open spec fn middle_steps(n: int, favor_cpu_efficiency: bool) -> Seq<Step> {
    if n > 1 && favor_cpu_efficiency {
        hashed_steps(n, n)
    } else {
        plain_steps(n - 1)
    }
}

/// All steps for `n` chunks. The first chunk is started before anything else, since it needs no
/// hasher; the last is compressed here, while the others run.
pub open spec fn schedule(n: int, favor_cpu_efficiency: bool) -> Seq<Step> {
    let first = if n > 1 {
        seq![Step::Spawn { index: 0, with_hasher: false }]
    } else {
        Seq::empty()
    };
    (first + middle_steps(n, favor_cpu_efficiency)).push(
        Step::Run { index: (n - 1) as usize, with_hasher: n > 1 && favor_cpu_efficiency },
    )
}

/// Works out the steps for `num_threads` chunks. They are the same for an input that the threads share
/// and for one that they borrow.
pub fn build_schedule(num_threads: usize, favor_cpu_efficiency: bool) -> (steps: Vec<Step>)
    requires
        num_threads > 0,
    ensures
        steps@ == schedule(num_threads as int, favor_cpu_efficiency),
{
    let mut steps: Vec<Step> = Vec::new();
    if num_threads > 1 {
        steps.push(Step::Spawn { index: 0, with_hasher: false });
    }
    let ghost first = steps@;
    let hashed: bool = num_threads > 1 && favor_cpu_efficiency;
    if hashed {
        steps.push(Step::SetUpHasher);
        let mut t: usize = 1;
        assert(steps@ =~= first + hashed_steps(num_threads as int, 1));
        while t < num_threads
            invariant
                1 <= t <= num_threads,
                steps@ == first + hashed_steps(num_threads as int, t as int),
            decreases num_threads - t,
        {
            steps.push(Step::Feed { chunk: t - 1 });
            if t + 1 != num_threads {
                steps.push(Step::Spawn { index: t, with_hasher: true });
            }
            t += 1;
            assert(steps@ =~= first + hashed_steps(num_threads as int, t as int));
        }
    } else {
        let mut t: usize = 1;
        assert(steps@ =~= first + plain_steps(1));
        while t + 1 < num_threads
            invariant
                1 <= t <= num_threads,
                t == 1 || t < num_threads,
                steps@ == first + plain_steps(t as int),
            decreases num_threads - t,
        {
            steps.push(Step::Spawn { index: t, with_hasher: false });
            t += 1;
            assert(steps@ =~= first + plain_steps(t as int));
        }
        assert(plain_steps(t as int) =~= plain_steps(num_threads - 1));
    }
    steps.push(Step::Run { index: num_threads - 1, with_hasher: hashed });
    steps
}

/// The chunks that `steps` compress, in order.
pub open spec fn compressed_by(steps: Seq<Step>) -> Seq<usize>
    decreases steps.len(),
{
    if steps.len() == 0 {
        Seq::empty()
    } else {
        let before = compressed_by(steps.drop_last());
        match steps.last() {
            Step::Spawn { index, .. } => before.push(index),
            Step::Run { index, .. } => before.push(index),
            _ => before,
        }
    }
}

/// The chunks that the hasher takes in, in order.
pub open spec fn fed_by(steps: Seq<Step>) -> Seq<usize>
    decreases steps.len(),
{
    if steps.len() == 0 {
        Seq::empty()
    } else {
        let before = fed_by(steps.drop_last());
        match steps.last() {
            Step::Feed { chunk } => before.push(chunk),
            _ => before,
        }
    }
}

proof fn lemma_compressed_concat(a: Seq<Step>, b: Seq<Step>)
    ensures
        compressed_by(a + b) == compressed_by(a) + compressed_by(b),
        fed_by(a + b) == fed_by(a) + fed_by(b),
    decreases b.len(),
{
    if b.len() == 0 {
        assert(a + b =~= a);
        assert(compressed_by(a) + compressed_by(b) =~= compressed_by(a));
        assert(fed_by(a) + fed_by(b) =~= fed_by(a));
    } else {
        lemma_compressed_concat(a, b.drop_last());
        assert((a + b).drop_last() =~= a + b.drop_last());
        assert(compressed_by(a + b) =~= compressed_by(a) + compressed_by(b));
        assert(fed_by(a + b) =~= fed_by(a) + fed_by(b));
    }
}

/// The numbers from `from` up to `to`.
pub open spec fn numbers(from: int, to: int) -> Seq<usize> {
    Seq::new((to - from) as nat, |i: int| (from + i) as usize)
}

proof fn lemma_hashed_steps(n: int, t: int)
    requires
        1 <= t <= n <= usize::MAX,
    ensures
        compressed_by(hashed_steps(n, t)) == numbers(1, if t < n { t } else if t == 1 { 1 } else {
            t - 1
        }),
        fed_by(hashed_steps(n, t)) == numbers(0, t - 1),
    decreases t,
{
    let steps = hashed_steps(n, t);
    reveal_with_fuel(compressed_by, 2);
    reveal_with_fuel(fed_by, 2);
    if t == 1 {
        assert(steps.drop_last() =~= Seq::empty());
        assert(compressed_by(steps) =~= numbers(1, 1));
        assert(fed_by(steps) =~= numbers(0, 0));
    } else {
        lemma_hashed_steps(n, t - 1);
        let before = hashed_steps(n, t - 1);
        let fed = before.push(Step::Feed { chunk: (t - 2) as usize });
        assert(fed.drop_last() =~= before);
        assert(fed_by(fed) =~= numbers(0, t - 1));
        assert(compressed_by(fed) == compressed_by(before));
        if t != n {
            assert(steps.drop_last() =~= fed);
            assert(compressed_by(steps) =~= numbers(1, t));
        }
    }
}

proof fn lemma_plain_steps(t: int)
    requires
        t <= usize::MAX,
    ensures
        compressed_by(plain_steps(t)) == numbers(1, if t < 1 { 1 } else { t }),
        fed_by(plain_steps(t)) == Seq::<usize>::empty(),
    decreases t,
{
    let steps = plain_steps(t);
    if t > 1 {
        lemma_plain_steps(t - 1);
        assert(steps.drop_last() =~= plain_steps(t - 1));
        assert(compressed_by(steps) =~= numbers(1, t));
    } else {
        assert(compressed_by(steps) =~= numbers(1, 1));
    }
}

/// Every chunk is compressed exactly once, and they are taken up in order.
pub proof fn lemma_schedule_compresses_all(n: int, favor_cpu_efficiency: bool)
    requires
        0 < n <= usize::MAX,
    ensures
        compressed_by(schedule(n, favor_cpu_efficiency)) == numbers(0, n),
{
    let steps = schedule(n, favor_cpu_efficiency);
    let first = if n > 1 {
        seq![Step::Spawn { index: 0, with_hasher: false }]
    } else {
        Seq::empty()
    };
    let middle = middle_steps(n, favor_cpu_efficiency);
    assert(first.len() > 0 ==> first.drop_last() =~= Seq::empty());
    reveal_with_fuel(compressed_by, 2);
    lemma_compressed_concat(first, middle);
    if n > 1 && favor_cpu_efficiency {
        lemma_hashed_steps(n, n);
    } else {
        lemma_plain_steps(n - 1);
    }
    assert(steps.drop_last() =~= first + middle);
    assert(compressed_by(steps) =~= numbers(0, n));
}

/// A chunk that gets the hasher gets it after the hasher has taken in every chunk before it, each
/// once and in order, and none behind it.
pub proof fn lemma_hasher_ready(n: int, t: int)
    requires
        1 < t < n <= usize::MAX,
    ensures
        hashed_steps(n, t).last() == (Step::Spawn { index: (t - 1) as usize, with_hasher: true }),
        fed_by(hashed_steps(n, t)) == numbers(0, t - 1),
        fed_by(schedule(n, true)) == numbers(0, n - 1),
{
    lemma_hashed_steps(n, t);
    lemma_hashed_steps(n, n);
    let steps = schedule(n, true);
    let first = seq![Step::Spawn { index: 0, with_hasher: false }];
    lemma_compressed_concat(first, hashed_steps(n, n));
    assert(first.drop_last() =~= Seq::empty());
    reveal_with_fuel(fed_by, 2);
    assert(steps.drop_last() =~= first + hashed_steps(n, n));
    assert(fed_by(steps) =~= numbers(0, n - 1));
}

/// A step that compresses a chunk hands it the hasher exactly if the input is hashed once and the chunk
/// is not the first.
pub open spec fn hands_hasher(step: Step, favor_cpu_efficiency: bool) -> bool {
    match step {
        Step::Spawn { index, with_hasher } => with_hasher == (index > 0 && favor_cpu_efficiency),
        Step::Run { index, with_hasher } => with_hasher == (index > 0 && favor_cpu_efficiency),
        _ => true,
    }
}

proof fn lemma_hashed_hand_hasher(n: int, t: int)
    requires
        1 <= t <= n <= usize::MAX,
    ensures
        forall|k: int|
            0 <= k < hashed_steps(n, t).len() ==> hands_hasher(
                #[trigger] hashed_steps(n, t)[k],
                true,
            ),
    decreases t,
{
    if t > 1 {
        lemma_hashed_hand_hasher(n, t - 1);
        let before = hashed_steps(n, t - 1);
        let steps = hashed_steps(n, t);
        assert forall|k: int| 0 <= k < steps.len() implies hands_hasher(
            #[trigger] steps[k],
            true,
        ) by {
            if k < before.len() {
                assert(steps[k] == before[k]);
            }
        }
    }
}

proof fn lemma_plain_hand_hasher(t: int)
    requires
        t <= usize::MAX,
    ensures
        forall|k: int|
            0 <= k < plain_steps(t).len() ==> hands_hasher(#[trigger] plain_steps(t)[k], false),
    decreases t,
{
    if t > 1 {
        lemma_plain_hand_hasher(t - 1);
        let before = plain_steps(t - 1);
        let steps = plain_steps(t);
        assert forall|k: int| 0 <= k < steps.len() implies hands_hasher(
            #[trigger] steps[k],
            false,
        ) by {
            if k < before.len() {
                assert(steps[k] == before[k]);
            }
        }
    }
}

/// The schedule hands the hasher to every chunk that is to get it, and to no other.
pub proof fn lemma_schedule_hands_hasher(n: int, favor_cpu_efficiency: bool)
    requires
        0 < n <= usize::MAX,
    ensures
        forall|k: int|
            0 <= k < schedule(n, favor_cpu_efficiency).len() ==> hands_hasher(
                #[trigger] schedule(n, favor_cpu_efficiency)[k],
                favor_cpu_efficiency,
            ),
{
    if n > 1 && favor_cpu_efficiency {
        lemma_hashed_hand_hasher(n, n);
    } else {
        lemma_plain_hand_hasher(n - 1);
    }
    let steps = schedule(n, favor_cpu_efficiency);
    let middle = middle_steps(n, favor_cpu_efficiency);
    let first: int = if n > 1 {
        1
    } else {
        0
    };
    assert forall|k: int| 0 <= k < steps.len() implies hands_hasher(
        #[trigger] steps[k],
        favor_cpu_efficiency,
    ) by {
        if first <= k < steps.len() - 1 {
            assert(steps[k] == middle[k - first]);
        }
    }
}

/// Makes an owned input of a slice: a copy of it, or nothing where the allocator of the first thread
/// is not here.
pub fn CompressMultiSlice<ReturnValue, ExtraInput, Alloc, Join>(
    input_slice: &[u8],
    first: &SendAlloc<ReturnValue, ExtraInput, Alloc, Join>,
) -> (owned_input: Owned<Vec<u8>>)
    ensures
        owned_bytes(owned_input) == Some(
            if first.0 is A {
                input_slice@
            } else {
                Seq::empty()
            },
        ),
{
    let mut input: Vec<u8> = Vec::new();
    match &first.0 {
        InternalSendAlloc::A(_alloc, _extra) => {
            let mut i: usize = 0;
            while i < input_slice.len()
                invariant
                    i <= input_slice@.len(),
                    input@ == input_slice@.take(i as int),
                decreases input_slice@.len() - i,
            {
                input.push(input_slice[i]);
                assert(input_slice@.take(i + 1) =~= input_slice@.take(i as int).push(
                    input_slice@[i as int],
                ));
                i += 1;
            }
            assert(input@ =~= input_slice@);
        },
        _ => {},
    }
    Owned::new(input)
}

} // verus!
