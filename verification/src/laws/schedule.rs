//! Laws of the order in which chunks are taken up.
use crate::threading::schedule::{build_schedule, hashed_steps, plain_steps, schedule, Step};
use vstd::prelude::*;

verus! {

/// Where every chunk hashes for itself, each chunk but the last is started on another thread, in order
/// and without a hasher, and the last is compressed here.
pub proof fn law_plain_schedule(n: usize, steps: Vec<Step>)
    requires
        n > 0,
        call_ensures(build_schedule, (n, false), steps),
    ensures
        steps@.len() == n,
        forall|k: int|
            0 <= k < n - 1 ==> #[trigger] steps@[k] == (Step::Spawn {
                index: k as usize,
                with_hasher: false,
            }),
        steps@[n - 1] == (Step::Run { index: (n - 1) as usize, with_hasher: false }),
{
    lemma_plain_steps(n - 1);
}

proof fn lemma_plain_steps(t: int)
    requires
        t < usize::MAX,
    ensures
        plain_steps(t).len() == if t <= 1 {
            0
        } else {
            t - 1
        },
        forall|k: int|
            0 <= k < plain_steps(t).len() ==> #[trigger] plain_steps(t)[k] == (Step::Spawn {
                index: (k + 1) as usize,
                with_hasher: false,
            }),
    decreases t,
{
    if t > 1 {
        lemma_plain_steps(t - 1);
    }
}

/// Where the input is hashed once, the first chunk is started before anything else and without a hasher;
/// then the hasher is set up and takes in the chunks one after the other, and as soon as it has taken in
/// chunk `k`, chunk `k + 1` is started with it. The last chunk is compressed here.
pub proof fn law_hashed_schedule(n: usize, steps: Vec<Step>)
    requires
        1 < n,
        2 * n <= usize::MAX,
        call_ensures(build_schedule, (n, true), steps),
    ensures
        steps@.len() == 2 * n,
        steps@[0] == (Step::Spawn { index: 0, with_hasher: false }),
        steps@[1] == Step::SetUpHasher,
        forall|k: int|
            0 <= k < n - 1 ==> steps@[#[trigger] (2 * k) + 2] == (Step::Feed { chunk: k as usize }),
        forall|k: int|
            1 <= k < n - 1 ==> steps@[#[trigger] (2 * k) + 1] == (Step::Spawn {
                index: k as usize,
                with_hasher: true,
            }),
        steps@[2 * n - 1] == (Step::Run { index: (n - 1) as usize, with_hasher: true }),
{
    lemma_hashed_steps(n as int, n as int);
    let middle = hashed_steps(n as int, n as int);
    assert forall|k: int| 0 <= k < middle.len() implies steps@[k + 1] == #[trigger] middle[k] by {}
    assert(middle[0] == Step::SetUpHasher);
    assert forall|k: int| 0 <= k < n - 1 implies steps@[#[trigger] (2 * k) + 2] == (Step::Feed {
        chunk: k as usize,
    }) by {
        assert(middle[2 * k + 1] == (Step::Feed { chunk: k as usize }));
    }
    assert forall|k: int| 1 <= k < n - 1 implies steps@[#[trigger] (2 * k) + 1] == (Step::Spawn {
        index: k as usize,
        with_hasher: true,
    }) by {
        assert(middle[2 * k] == (Step::Spawn { index: k as usize, with_hasher: true }));
    }
}

proof fn lemma_hashed_steps(n: int, t: int)
    requires
        1 <= t <= n < usize::MAX,
    ensures
        hashed_steps(n, t).len() == if 1 < t && t == n {
            2 * t - 2
        } else {
            2 * t - 1
        },
        hashed_steps(n, t)[0] == Step::SetUpHasher,
        forall|k: int|
            0 <= k < t - 1 ==> hashed_steps(n, t)[#[trigger] (2 * k) + 1] == (Step::Feed {
                chunk: k as usize,
            }),
        forall|k: int|
            1 <= k < t && k < n - 1 ==> hashed_steps(n, t)[#[trigger] (2 * k)] == (Step::Spawn {
                index: k as usize,
                with_hasher: true,
            }),
    decreases t,
{
    if t > 1 {
        lemma_hashed_steps(n, t - 1);
        let before = hashed_steps(n, t - 1);
        let steps = hashed_steps(n, t);
        assert forall|k: int| 0 <= k < t - 1 implies steps[#[trigger] (2 * k) + 1] == (Step::Feed {
            chunk: k as usize,
        }) by {
            if k < t - 2 {
                assert(before[(2 * k) + 1] == (Step::Feed { chunk: k as usize }));
            }
        }
        assert forall|k: int| 1 <= k < t && k < n - 1 implies steps[#[trigger] (2 * k)] == (
        Step::Spawn { index: k as usize, with_hasher: true }) by {
            if k < t - 1 {
                assert(before[(2 * k)] == (Step::Spawn { index: k as usize, with_hasher: true }));
            }
        }
    }
}

/// A single chunk is compressed here, without a hasher, whatever was asked for.
pub proof fn law_single_chunk(favor_cpu_efficiency: bool, steps: Vec<Step>)
    requires
        call_ensures(build_schedule, (1usize, favor_cpu_efficiency), steps),
    ensures
        steps@ == seq![Step::Run { index: 0, with_hasher: false }],
{
    assert(schedule(1, favor_cpu_efficiency) =~= seq![Step::Run { index: 0, with_hasher: false }]);
}

} // verus!
