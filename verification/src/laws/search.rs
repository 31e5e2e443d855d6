//! Laws of a search for the longest match.
use crate::backward_references::search::{SearchContext, SearchState};
use crate::backward_references::tagged::{Searched, TaggedHashSpecialization, TaggedHasher};
use crate::backward_references::{
    backward_reference_score, last_distance_penalty, last_distance_score, HasherSearchResult,
};
use vstd::prelude::*;

verus! {

/// Where the current position stands in the ring buffer.
pub open spec fn here(c: SearchContext) -> int {
    (c.cur_ix & c.ring_buffer_mask) as int
}

/// `len` bytes agree at `p` and at the current position, no more than are allowed and all within the
/// data.
pub open spec fn agree(c: SearchContext, p: int, len: int) -> bool {
    &&& 0 <= p
    &&& 0 <= len <= c.max_length
    &&& p + len <= c.data@.len()
    &&& here(c) + len <= c.data@.len()
    &&& forall|k: int|
        0 <= k < len ==> #[trigger] c.data@[p + k] == #[trigger] c.data@[here(c) + k]
}

/// `len` bytes agree at `p` and at the current position, and not one more.
pub open spec fn longest(c: SearchContext, p: int, len: int) -> bool {
    agree(c, p, len) && !agree(c, p, len + 1)
}

/// What is left of `len` bytes from `p` on if they may not run over the break.
pub open spec fn up_to_break(c: SearchContext, p: int, len: int) -> int {
    match c.ring_buffer_break {
        Some(at) => if p < at < p + len {
            at - p
        } else {
            len
        },
        None => len,
    }
}

proof fn lemma_longest_is_shared(c: SearchContext, p: int, m: int)
    requires
        longest(c, p, m),
    ensures
        c.shared(p) == m,
        c.match_len(p) == up_to_break(c, p, m),
        0 <= up_to_break(c, p, m) <= m,
{
    let a = c.data@.skip(p);
    let b = c.data@.skip(here(c));
    let n = c.shared(p);
    crate::static_dict::lemma_common_prefix(a, b, c.max_length as int);
    assert forall|k: int| 0 <= k < n implies #[trigger] c.data@[p + k]
        == #[trigger] c.data@[here(c) + k] by {
        assert(a[k] == b[k]);
    }
    if n > m {
        assert(agree(c, p, m + 1));
    }
    if n < m {
        assert(c.data@[p + n] == c.data@[here(c) + n]);
        assert(a[n] == b[n]);
    }
}

proof fn lemma_tail_agrees(c: SearchContext, p: int, m: int, best_len: usize)
    requires
        longest(c, p, m),
        3 <= best_len < m,
    ensures
        c.tail_agrees(p, best_len),
{
    let a = c.data@.skip(here(c) + best_len - 3);
    let b = c.data@.skip(p + best_len - 3);
    assert forall|i: int| 0 <= i < 4 implies a[i] == b[i] by {
        let k = best_len - 3 + i;
        assert(c.data@[p + k] == c.data@[here(c) + k]);
    }
    assert(a[0] == b[0] && a[1] == b[1] && a[2] == b[2] && a[3] == b[3]);
}

/// Some entry from the `k`-th on carries `tag` and lies farther back than allowed.
pub open spec fn too_far_from(c: SearchContext, entries: Seq<(u32, u8)>, tag: u8, k: int) -> bool {
    exists|i: int|
        k <= i < entries.len() && (#[trigger] entries[i]).1 == tag && c.cur_ix.wrapping_sub(
            entries[i].0 as usize,
        ) > c.max_backward
}

proof fn lemma_one_more(
    c: SearchContext,
    entries: Seq<(u32, u8)>,
    e: (u32, u8),
    tag: u8,
    k: int,
    state: SearchState,
)
    requires
        0 <= k <= entries.len(),
    ensures
        ({
            let before = c.spec_try_bucket(entries, tag, k, state);
            let after = c.spec_try_bucket(entries.push(e), tag, k, state);
            after == if too_far_from(c, entries, tag, k) || e.1 != tag || c.ends_at(e.0, before) {
                before
            } else {
                c.spec_try_candidate(e.0, before)
            }
        }),
    decreases entries.len() - k,
{
    let more = entries.push(e);
    if k == entries.len() {
        assert(more[k] == e);
        let next = c.spec_try_candidate(e.0, state);
        assert(c.spec_try_bucket(more, tag, k + 1, state) == state);
        assert(c.spec_try_bucket(more, tag, k + 1, next) == next);
    } else {
        assert(more[k] == entries[k]);
        if entries[k].1 != tag {
            lemma_one_more(c, entries, e, tag, k + 1, state);
            assert(too_far_from(c, entries, tag, k) == too_far_from(c, entries, tag, k + 1));
        } else if c.ends_at(entries[k].0, state) {
        } else {
            let next = c.spec_try_candidate(entries[k].0, state);
            lemma_one_more(c, entries, e, tag, k + 1, next);
            assert(too_far_from(c, entries, tag, k) == too_far_from(c, entries, tag, k + 1));
        }
    }
}

proof fn lemma_best_len(
    c: SearchContext,
    entries: Seq<(u32, u8)>,
    tag: u8,
    k: int,
    state: SearchState,
)
    requires
        state.best_len >= 3,
    ensures
        c.spec_try_bucket(entries, tag, k, state).best_len >= 3,
        c.spec_try_bucket(entries, tag, k, state).best_score >= state.best_score,
    decreases entries.len() - k,
{
    if k < entries.len() {
        if entries[k].1 != tag {
            lemma_best_len(c, entries, tag, k + 1, state);
        } else if !c.ends_at(entries[k].0, state) {
            lemma_best_len(c, entries, tag, k + 1, c.spec_try_candidate(entries[k].0, state));
        }
    }
}

/// What a search knows after it has taken a match of `len` bytes at `distance`.
pub open spec fn takes(
    before: SearchState,
    after: SearchState,
    len: int,
    distance: usize,
    score: u64,
) -> bool {
    &&& score > before.best_score
    &&& after.found
    &&& after.best_score == score
    &&& after.out.score == score
    &&& after.out.len == len
    &&& after.out.distance == distance
    &&& after.out.len_x_code == before.out.len_x_code
}

/// One candidate more makes a difference to a search only if its match has the better score, and then
/// the search takes the whole match there, as far as it may go. Where the candidate shares more bytes
/// than the search asks for, it is taken whenever its score is the better one: a search passes over such
/// a candidate only where it, or one before it, lies too far back, or where no longer match fits in the
/// ring buffer.
pub proof fn law_one_candidate_more(
    c: SearchContext,
    cache: Seq<i32>,
    n: int,
    entries: Seq<(u32, u8)>,
    tag: u8,
    out: HasherSearchResult,
    e: (u32, u8),
    m: int,
)
    requires
        longest(c, (e.0 as usize & c.ring_buffer_mask) as int, m),
    ensures
        ({
            let before = c.spec_search(cache, n, entries, tag, out);
            let after = c.spec_search(cache, n, entries.push(e), tag, out);
            let p = (e.0 as usize & c.ring_buffer_mask) as int;
            let distance = c.cur_ix.wrapping_sub(e.0 as usize);
            let len = up_to_break(c, p, m);
            let score = backward_reference_score(len as usize, distance, c.opts);
            &&& after == before || e.1 == tag && m >= 4 && !too_far_from(
                c,
                entries.push(e),
                tag,
                0,
            ) && takes(before, after, len, distance, score) && after.best_len == if len < 3 {
                3
            } else {
                len
            }
            &&& e.1 == tag && !too_far_from(c, entries.push(e), tag, 0) && m >= 4 && m
                > before.best_len && here(c) + before.best_len <= c.ring_buffer_mask && p
                + before.best_len <= c.ring_buffer_mask && score > before.best_score ==> takes(
                before,
                after,
                len,
                distance,
                score,
            )
            &&& before.best_len >= 3
        }),
{
    let start = c.spec_try_all_recent(cache, n, SearchState::spec_start(out)).spec_for_bucket();
    let p = (e.0 as usize & c.ring_buffer_mask) as int;
    let before = c.spec_search(cache, n, entries, tag, out);
    let more = entries.push(e);
    lemma_one_more(c, entries, e, tag, 0, start);
    lemma_best_len(c, entries, tag, 0, start);
    lemma_longest_is_shared(c, p, m);
    if m > before.best_len {
        lemma_tail_agrees(c, p, m, before.best_len);
    }
    assert(too_far_from(c, more, tag, 0) <==> too_far_from(c, entries, tag, 0) || (e.1 == tag
        && c.cur_ix.wrapping_sub(e.0 as usize) > c.max_backward)) by {
        assert(more[entries.len() as int] == e);
        if too_far_from(c, entries, tag, 0) {
            let i = choose|i: int|
                0 <= i < entries.len() && (#[trigger] entries[i]).1 == tag && c.cur_ix.wrapping_sub(
                    entries[i].0 as usize,
                ) > c.max_backward;
            assert(more[i] == entries[i]);
        }
        if too_far_from(c, more, tag, 0) {
            let i = choose|i: int|
                0 <= i < more.len() && (#[trigger] more[i]).1 == tag && c.cur_ix.wrapping_sub(
                    more[i].0 as usize,
                ) > c.max_backward;
            if i < entries.len() {
                assert(entries[i] == more[i]);
            }
        }
    }
}

/// Whatever candidates come, the score of a search never falls.
pub proof fn law_score_grows(
    c: SearchContext,
    cache: Seq<i32>,
    n: int,
    entries: Seq<(u32, u8)>,
    tag: u8,
    out: HasherSearchResult,
    j: int,
)
    requires
        0 <= j <= entries.len(),
    ensures
        c.spec_search(cache, n, entries, tag, out).best_score >= c.spec_search(
            cache,
            n,
            entries.take(j),
            tag,
            out,
        ).best_score,
    decreases entries.len() - j,
{
    if j < entries.len() {
        law_score_grows(c, cache, n, entries, tag, out, j + 1);
        let start = c.spec_try_all_recent(cache, n, SearchState::spec_start(out)).spec_for_bucket();
        lemma_one_more(c, entries.take(j), entries[j], tag, 0, start);
        assert(entries.take(j).push(entries[j]) =~= entries.take(j + 1));
    } else {
        assert(entries.take(j) =~= entries);
    }
}

/// The candidate of entry `j` is worth trying: it carries the tag, neither it nor a newer one with the
/// tag lies too far back, and it shares at least four bytes, and more than the search has by then, with
/// the current position, where longer matches fit in the ring buffer.
pub open spec fn worth_trying(
    c: SearchContext,
    before: SearchState,
    entries: Seq<(u32, u8)>,
    tag: u8,
    j: int,
    m: int,
) -> bool {
    let p = (entries[j].0 as usize & c.ring_buffer_mask) as int;
    &&& 0 <= j < entries.len()
    &&& entries[j].1 == tag
    &&& !too_far_from(c, entries.take(j + 1), tag, 0)
    &&& longest(c, p, m)
    &&& m >= 4
    &&& m > before.best_len
    &&& here(c) + before.best_len <= c.ring_buffer_mask
    &&& p + before.best_len <= c.ring_buffer_mask
}

/// A search is complete: it ends with a score no less than that of a match at any candidate that was
/// worth trying when its turn came.
pub proof fn law_search_complete(
    c: SearchContext,
    cache: Seq<i32>,
    n: int,
    entries: Seq<(u32, u8)>,
    tag: u8,
    out: HasherSearchResult,
    j: int,
    m: int,
)
    requires
        0 <= j < entries.len(),
        worth_trying(
            c,
            c.spec_search(cache, n, entries.take(j), tag, out),
            entries,
            tag,
            j,
            m,
        ),
    ensures
        ({
            let p = (entries[j].0 as usize & c.ring_buffer_mask) as int;
            c.spec_search(cache, n, entries, tag, out).best_score >= backward_reference_score(
                up_to_break(c, p, m) as usize,
                c.cur_ix.wrapping_sub(entries[j].0 as usize),
                c.opts,
            )
        }),
{
    law_one_candidate_more(c, cache, n, entries.take(j), tag, out, entries[j], m);
    assert(entries.take(j).push(entries[j]) =~= entries.take(j + 1));
    law_score_grows(c, cache, n, entries, tag, out, j + 1);
    law_score_grows(c, cache, n, entries.take(j + 1), tag, out, j);
    assert(entries.take(j + 1).take(j) =~= entries.take(j));
}

/// A search starts from what an earlier one found: it looks for a better score, and for more than three
/// bytes.
pub proof fn law_search_starts(c: SearchContext, cache: Seq<i32>, tag: u8, out: HasherSearchResult)
    ensures
        ({
            let start = c.spec_search(cache, 0, Seq::empty(), tag, out);
            &&& !start.found
            &&& start.best_score == out.score
            &&& start.best_len == if out.len < 3 {
                3
            } else {
                out.len
            }
            &&& start.out == (HasherSearchResult {
                len: 0,
                len_x_code: 0,
                distance: out.distance,
                score: out.score,
            })
        }),
        ({
            let start = c.spec_try_all_recent(cache, 0, SearchState::spec_start(out));
            &&& start.best_score == out.score
            &&& start.best_len == out.len
        }),
{
}

/// Before a bucket is searched, a search has tried the recent distances, and a match that it found there
/// stays, whatever its length.
pub proof fn law_recent_first(
    c: SearchContext,
    cache: Seq<i32>,
    n: int,
    tag: u8,
    out: HasherSearchResult,
)
    ensures
        ({
            let recent = c.spec_try_all_recent(cache, n, SearchState::spec_start(out));
            let all = c.spec_search(cache, n, Seq::empty(), tag, out);
            &&& all.out == recent.out
            &&& all.found == recent.found
            &&& all.best_score == recent.best_score
            &&& all.best_len == if recent.best_len < 3 {
                3
            } else {
                recent.best_len
            }
        }),
{
}

/// One recent distance more makes a difference to a search only if its match has the better score, and
/// then the search takes the whole match there. Where it shares more bytes than the search has, and three
/// at least, or two for the first two distances, it is taken whenever its score is the better one. A
/// distance of zero, one that leads before the first byte, and one that is too far are passed over.
pub proof fn law_one_recent_more(
    c: SearchContext,
    cache: Seq<i32>,
    i: int,
    out: HasherSearchResult,
    m: int,
)
    requires
        0 <= i < cache.len() <= usize::MAX,
        cache[i] >= 0,
        cache[i] <= c.cur_ix ==> longest(
            c,
            ((c.cur_ix - cache[i]) as usize & c.ring_buffer_mask) as int,
            m,
        ),
    ensures
        ({
            let start = SearchState::spec_start(out);
            let before = c.spec_try_all_recent(cache, i, start);
            let after = c.spec_try_all_recent(cache, i + 1, start);
            let distance = cache[i];
            let p = ((c.cur_ix - distance) as usize & c.ring_buffer_mask) as int;
            let len = up_to_break(c, p, m);
            let full = last_distance_score(len as usize, c.opts);
            let score = if i == 0 {
                full
            } else {
                full.wrapping_sub(last_distance_penalty(i as usize))
            };
            &&& distance == 0 || distance > c.cur_ix || distance > c.max_backward ==> after == before
            &&& after == before || (m >= 3 || m == 2 && i < 2) && takes(
                before,
                after,
                len,
                distance as usize,
                score,
            ) && after.best_len == len
            &&& 0 < distance <= c.cur_ix && distance <= c.max_backward && (m >= 3 || m == 2 && i < 2)
                && m > before.best_len && here(c) + before.best_len <= c.ring_buffer_mask && p
                + before.best_len <= c.ring_buffer_mask && score > before.best_score && full >= score
                ==> takes(before, after, len, distance as usize, score)
        }),
{
    let start = SearchState::spec_start(out);
    let before = c.spec_try_all_recent(cache, i, start);
    let p = ((c.cur_ix - cache[i]) as usize & c.ring_buffer_mask) as int;
    if cache[i] <= c.cur_ix {
        lemma_longest_is_shared(c, p, m);
        if m > before.best_len {
            assert(c.data@[p + before.best_len] == c.data@[here(c) + before.best_len]);
        }
    }
}

/// The last `n` of `best_len + 1` bytes are there both at `p` and at the current position, and agree.
pub open spec fn same_end(c: SearchContext, p: int, best_len: int, n: int) -> bool {
    &&& p + best_len < c.data@.len()
    &&& here(c) + best_len < c.data@.len()
    &&& forall|k: int|
        best_len - n < k <= best_len ==> #[trigger] c.data@[p + k] == #[trigger] c.data@[here(c)
            + k]
}

proof fn lemma_same_end(c: SearchContext, p: int, best_len: usize)
    requires
        p >= 0,
        best_len >= 3,
    ensures
        c.tail_agrees(p, best_len) <==> same_end(c, p, best_len as int, 4),
{
    if p + best_len < c.data@.len() && here(c) + best_len < c.data@.len() {
        let a = c.data@.skip(here(c) + best_len - 3);
        let b = c.data@.skip(p + best_len - 3);
        crate::backward_references::search::lemma_load_four(a, b);
        assert forall|i: int| 0 <= i < 4 implies #[trigger] a[i] == c.data@[here(c) + (best_len - 3
            + i)] && b[i] == c.data@[p + (best_len - 3 + i)] by {}
        if c.tail_agrees(p, best_len) {
            assert forall|k: int| best_len - 4 < k <= best_len implies #[trigger] c.data@[p + k]
                == #[trigger] c.data@[here(c) + k] by {
                let i = k - (best_len - 3);
                assert(a[i] == b[i]);
            }
        }
        if same_end(c, p, best_len as int, 4) {
            let k = best_len - 3;
            assert(c.data@[p + k] == c.data@[here(c) + k]);
            assert(c.data@[p + (k + 1)] == c.data@[here(c) + (k + 1)]);
            assert(c.data@[p + (k + 2)] == c.data@[here(c) + (k + 2)]);
            assert(c.data@[p + (k + 3)] == c.data@[here(c) + (k + 3)]);
            assert(a[0] == b[0] && a[1] == b[1] && a[2] == b[2] && a[3] == b[3]);
        }
    }
}

/// Trying a candidate ends the search exactly if it lies too far back, or if no longer match fits in the
/// ring buffer. Else the search takes the whole match there exactly if it has the better score, is at
/// least four bytes long, and ends as a longer match than the search has would. Looking at the first four
/// bytes first makes no difference.
pub proof fn law_try_candidate(
    c: SearchContext,
    prev: u32,
    from_four: bool,
    state: SearchState,
    next: Option<SearchState>,
    other: Option<SearchState>,
    m: int,
)
    requires
        state.best_len >= 3,
        ({
            let p = (prev as usize & c.ring_buffer_mask) as int;
            same_end(c, p, state.best_len as int, 4) ==> longest(c, p, m)
        }),
        call_ensures(SearchContext::try_candidate, (&c, prev, from_four, state), next),
        call_ensures(SearchContext::try_candidate, (&c, prev, !from_four, state), other),
    ensures
        next == other,
        ({
            let p = (prev as usize & c.ring_buffer_mask) as int;
            let distance = c.cur_ix.wrapping_sub(prev as usize);
            let len = up_to_break(c, p, m);
            let score = backward_reference_score(len as usize, distance, c.opts);
            let better = same_end(c, p, state.best_len as int, 4) && p + state.best_len
                <= c.ring_buffer_mask && m >= 4 && score > state.best_score;
            &&& next is None <==> distance > c.max_backward || here(c) + state.best_len
                > c.ring_buffer_mask
            &&& next is Some && !better ==> next == Some(state)
            &&& next is Some && better ==> takes(state, next->0, len, distance, score)
                && next->0.best_len == if len < 3 {
                3
            } else {
                len
            }
        }),
{
    let p = (prev as usize & c.ring_buffer_mask) as int;
    lemma_same_end(c, p, state.best_len);
    if same_end(c, p, state.best_len as int, 4) {
        lemma_longest_is_shared(c, p, m);
    }
}

/// Trying a recent distance takes the whole match there exactly if it has the better score, both with
/// the penalty and without, is at least three bytes long, or two at the first two distances, and goes on
/// as a longer match than the search has would.
pub proof fn law_try_recent(
    c: SearchContext,
    distance: i32,
    i: usize,
    state: SearchState,
    next: SearchState,
    m: int,
)
    requires
        distance >= 0,
        ({
            let p = ((c.cur_ix - distance) as usize & c.ring_buffer_mask) as int;
            distance <= c.cur_ix && same_end(c, p, state.best_len as int, 1) ==> longest(c, p, m)
        }),
        call_ensures(SearchContext::try_recent, (&c, distance, i, state), next),
    ensures
        ({
            let p = ((c.cur_ix - distance) as usize & c.ring_buffer_mask) as int;
            let len = up_to_break(c, p, m);
            let full = last_distance_score(len as usize, c.opts);
            let score = if i == 0 {
                full
            } else {
                full.wrapping_sub(last_distance_penalty(i))
            };
            let better = 0 < distance <= c.cur_ix && distance <= c.max_backward && same_end(
                c,
                p,
                state.best_len as int,
                1,
            ) && here(c) + state.best_len <= c.ring_buffer_mask && p + state.best_len
                <= c.ring_buffer_mask && (m >= 3 || m == 2 && i < 2) && full > state.best_score
                && score > state.best_score;
            &&& !better ==> next == state
            &&& better ==> takes(state, next, len, distance as usize, score) && next.best_len == len
        }),
{
    let p = ((c.cur_ix - distance) as usize & c.ring_buffer_mask) as int;
    if distance <= c.cur_ix {
        if same_end(c, p, state.best_len as int, 1) {
            lemma_longest_is_shared(c, p, m);
            assert(c.data@[p + state.best_len] == c.data@[here(c) + state.best_len]);
        } else {
            assert(!c.extends(p, state.best_len)) by {
                if c.extends(p, state.best_len) {
                    assert forall|k: int|
                        state.best_len - 1 < k <= state.best_len implies #[trigger] c.data@[p + k]
                        == #[trigger] c.data@[here(c) + k] by {
                        assert(k == state.best_len);
                    }
                }
            }
        }
    }
}

/// A distance below zero is never taken.
pub proof fn law_try_no_distance(
    c: SearchContext,
    distance: i32,
    i: usize,
    state: SearchState,
    next: SearchState,
)
    requires
        distance < 0,
        c.cur_ix - distance <= usize::MAX,
        call_ensures(SearchContext::try_recent, (&c, distance, i, state), next),
    ensures
        next == state,
{
    let all = !0usize;
    assert((distance as usize) - distance == all + 1) by (bit_vector)
        requires
            distance < 0,
            all == !0usize,
    ;
    let most = usize::MAX;
    assert(most <= !0usize) by (bit_vector);
    assert(c.cur_ix.wrapping_sub(distance as usize) == c.cur_ix - distance);
}

/// Trying several recent distances is trying one after the other, and trying none leaves the search as it
/// is.
pub proof fn law_try_all_recent(
    c: SearchContext,
    cache: &[i32],
    n: usize,
    state: SearchState,
    before: SearchState,
    step: SearchState,
    after: SearchState,
)
    requires
        n < cache@.len() <= usize::MAX,
        call_ensures(SearchContext::try_all_recent, (&c, cache, n, state), before),
        call_ensures(SearchContext::try_recent, (&c, cache@[n as int], n, before), step),
        call_ensures(SearchContext::try_all_recent, (&c, cache, (n + 1) as usize, state), after),
    ensures
        after == step,
        n == 0 ==> before == state,
{
}

/// A search that starts, improves, or goes on to a bucket changes what it is to change, and keeps the
/// rest.
pub proof fn law_search_states(
    out: HasherSearchResult,
    start: SearchState,
    state: SearchState,
    len: usize,
    distance: usize,
    score: u64,
    improved: SearchState,
    bucket: SearchState,
)
    requires
        call_ensures(SearchState::start, (out,), start),
        call_ensures(SearchState::improve, (state, len, distance, score), improved),
        call_ensures(SearchState::for_bucket, (state,), bucket),
    ensures
        start.best_score == out.score && start.best_len == out.len && !start.found,
        start.out.len == 0 && start.out.len_x_code == 0,
        start.out.distance == out.distance && start.out.score == out.score,
        improved.found && improved.best_score == score && improved.best_len == len,
        improved.out.len == len && improved.out.distance == distance && improved.out.score == score,
        improved.out.len_x_code == state.out.len_x_code,
        bucket.best_score == state.best_score && bucket.out == state.out && bucket.found
            == state.found,
        state.best_len >= 3 ==> bucket.best_len == state.best_len,
        state.best_len < 3 ==> bucket.best_len == 3,
{
}

/// The search that a match finder makes of its table.
pub open spec fn context_of<'a>(
    data: &'a [u8],
    ring_buffer_mask: usize,
    ring_buffer_break: Option<usize>,
    cur_ix: usize,
    max_length: usize,
    max_backward: usize,
    literal_byte_score: u32,
) -> SearchContext<'a> {
    SearchContext {
        data,
        ring_buffer_mask,
        ring_buffer_break,
        cur_ix,
        max_length,
        max_backward,
        opts: crate::backward_references::H9Opts { literal_byte_score },
    }
}

/// What a match finder finds is a match, and better than what it was given: the bytes at the current
/// position occur again, as many as it says and as far back as it says, no more and no farther than
/// allowed. Where it finds nothing better, the score stays, and the dictionary is to be asked if there is
/// one.
pub proof fn law_finds_a_match<Specialization: TaggedHashSpecialization>(
    hasher: &mut TaggedHasher<Specialization>,
    has_dictionary: bool,
    data: &[u8],
    ring_buffer_mask: usize,
    ring_buffer_break: Option<usize>,
    distance_cache: &[i32],
    cur_ix: usize,
    max_length: usize,
    max_backward: usize,
    gap: usize,
    max_distance: usize,
    out: &mut HasherSearchResult,
    searched: Searched,
)
    requires
        call_ensures(
            TaggedHasher::<Specialization>::find_longest_match_simd,
            (
                hasher,
                has_dictionary,
                data,
                ring_buffer_mask,
                ring_buffer_break,
                distance_cache,
                cur_ix,
                max_length,
                max_backward,
                gap,
                max_distance,
                out,
            ),
            searched,
        ),
    ensures
        final(out).score >= old(out).score,
        searched is Found <==> final(out).score > old(out).score,
        final(out).score == old(out).score ==> final(out).len == 0 && final(out).distance == old(
            out,
        ).distance && (searched is AskDictionary <==> has_dictionary),
        searched matches Searched::AskDictionary { max_backward: b, max_distance: d } ==> d
            == max_distance && (max_backward + gap <= usize::MAX ==> b == max_backward + gap),
        final(out).score > old(out).score ==> {
            let p = (cur_ix.wrapping_sub(final(out).distance) & ring_buffer_mask) as int;
            let cur = (cur_ix & ring_buffer_mask) as int;
            &&& final(out).len <= max_length
            &&& final(out).distance <= max_backward
            &&& p + final(out).len <= data@.len()
            &&& cur + final(out).len <= data@.len()
            &&& forall|k: int|
                0 <= k < final(out).len ==> #[trigger] data@[p + k] == #[trigger] data@[cur + k]
        },
{
    let c = context_of(
        data,
        ring_buffer_mask,
        ring_buffer_break,
        cur_ix,
        max_length,
        max_backward,
        old(hasher).h9_opts.literal_byte_score,
    );
    let hash = old(hasher).specialization.spec_hash(data@.skip(here(c)));
    let entries = old(hasher)@.entries(hash / 256, old(hasher).spec_block_size());
    let n = old(hasher).common.params.num_last_distances_to_check as int;
    c.lemma_search_sound(distance_cache@, n, entries, (hash % 256) as u8, *old(out));
}

/// What a match finder finds is the best of its candidates: its score is no less than that of a match at
/// any entry of the bucket that was worth trying when its turn came.
pub proof fn law_finds_the_best<Specialization: TaggedHashSpecialization>(
    hasher: &mut TaggedHasher<Specialization>,
    has_dictionary: bool,
    data: &[u8],
    ring_buffer_mask: usize,
    ring_buffer_break: Option<usize>,
    distance_cache: &[i32],
    cur_ix: usize,
    max_length: usize,
    max_backward: usize,
    gap: usize,
    max_distance: usize,
    out: &mut HasherSearchResult,
    searched: Searched,
    j: int,
    m: int,
)
    requires
        call_ensures(
            TaggedHasher::<Specialization>::find_longest_match_simd,
            (
                hasher,
                has_dictionary,
                data,
                ring_buffer_mask,
                ring_buffer_break,
                distance_cache,
                cur_ix,
                max_length,
                max_backward,
                gap,
                max_distance,
                out,
            ),
            searched,
        ),
        ({
            let c = context_of(
                data,
                ring_buffer_mask,
                ring_buffer_break,
                cur_ix,
                max_length,
                max_backward,
                old(hasher).h9_opts.literal_byte_score,
            );
            let hash = old(hasher).specialization.spec_hash(data@.skip(here(c)));
            let entries = old(hasher)@.entries(hash / 256, old(hasher).spec_block_size());
            let n = old(hasher).common.params.num_last_distances_to_check as int;
            let tag = (hash % 256) as u8;
            &&& 0 <= j < entries.len()
            &&& worth_trying(
                c,
                c.spec_search(distance_cache@, n, entries.take(j), tag, *old(out)),
                entries,
                tag,
                j,
                m,
            )
        }),
    ensures
        ({
            let hash = old(hasher).specialization.spec_hash(
                data@.skip((cur_ix & ring_buffer_mask) as int),
            );
            let prev = old(hasher)@.entries(hash / 256, old(hasher).spec_block_size())[j].0;
            let p = (prev as usize & ring_buffer_mask) as int;
            let len = match ring_buffer_break {
                Some(at) => if p < at < p + m {
                    at - p
                } else {
                    m
                },
                None => m,
            };
            final(out).score >= backward_reference_score(
                len as usize,
                cur_ix.wrapping_sub(prev as usize),
                old(hasher).h9_opts,
            )
        }),
{
    let c = context_of(
        data,
        ring_buffer_mask,
        ring_buffer_break,
        cur_ix,
        max_length,
        max_backward,
        old(hasher).h9_opts.literal_byte_score,
    );
    let hash = old(hasher).specialization.spec_hash(data@.skip(here(c)));
    let entries = old(hasher)@.entries(hash / 256, old(hasher).spec_block_size());
    let n = old(hasher).common.params.num_last_distances_to_check as int;
    law_search_complete(c, distance_cache@, n, entries, (hash % 256) as u8, *old(out), j, m);
    c.lemma_search_sound(distance_cache@, n, entries, (hash % 256) as u8, *old(out));
}

/// The score of a search never falls while recent distances are tried.
proof fn lemma_recent_score_grows(
    c: SearchContext,
    cache: Seq<i32>,
    i: int,
    n: int,
    start: SearchState,
)
    requires
        0 <= i <= n,
    ensures
        c.spec_try_all_recent(cache, n, start).best_score >= c.spec_try_all_recent(
            cache,
            i,
            start,
        ).best_score,
    decreases n - i,
{
    if i < n {
        lemma_recent_score_grows(c, cache, i, n - 1, start);
    }
}

/// What a match finder finds is as good as any match at the recent distances that it is to check: its
/// score is no less than that of a match there which was worth trying when its turn came.
pub proof fn law_finds_recent<Specialization: TaggedHashSpecialization>(
    hasher: &mut TaggedHasher<Specialization>,
    has_dictionary: bool,
    data: &[u8],
    ring_buffer_mask: usize,
    ring_buffer_break: Option<usize>,
    distance_cache: &[i32],
    cur_ix: usize,
    max_length: usize,
    max_backward: usize,
    gap: usize,
    max_distance: usize,
    out: &mut HasherSearchResult,
    searched: Searched,
    i: int,
    m: int,
)
    requires
        call_ensures(
            TaggedHasher::<Specialization>::find_longest_match_simd,
            (
                hasher,
                has_dictionary,
                data,
                ring_buffer_mask,
                ring_buffer_break,
                distance_cache,
                cur_ix,
                max_length,
                max_backward,
                gap,
                max_distance,
                out,
            ),
            searched,
        ),
        0 <= i < old(hasher).common.params.num_last_distances_to_check,
        old(hasher).common.params.num_last_distances_to_check <= distance_cache@.len()
            <= usize::MAX,
        0 < distance_cache@[i] <= cur_ix,
        distance_cache@[i] <= max_backward,
        ({
            let c = context_of(
                data,
                ring_buffer_mask,
                ring_buffer_break,
                cur_ix,
                max_length,
                max_backward,
                old(hasher).h9_opts.literal_byte_score,
            );
            let before = c.spec_try_all_recent(distance_cache@, i, SearchState::spec_start(*old(out)));
            let p = ((cur_ix - distance_cache@[i]) as usize & ring_buffer_mask) as int;
            &&& longest(c, p, m)
            &&& m >= 3 || m == 2 && i < 2
            &&& m > before.best_len
            &&& here(c) + before.best_len <= ring_buffer_mask
            &&& p + before.best_len <= ring_buffer_mask
        }),
    ensures
        ({
            let p = ((cur_ix - distance_cache@[i]) as usize & ring_buffer_mask) as int;
            let len = match ring_buffer_break {
                Some(at) => if p < at < p + m {
                    at - p
                } else {
                    m
                },
                None => m,
            };
            let full = last_distance_score(len as usize, old(hasher).h9_opts);
            let penalty = last_distance_penalty(i as usize);
            &&& i == 0 ==> final(out).score >= full
            &&& i > 0 && penalty <= full ==> final(out).score >= full - penalty
        }),
{
    let c = context_of(
        data,
        ring_buffer_mask,
        ring_buffer_break,
        cur_ix,
        max_length,
        max_backward,
        old(hasher).h9_opts.literal_byte_score,
    );
    let hash = old(hasher).specialization.spec_hash(data@.skip(here(c)));
    let tag = (hash % 256) as u8;
    let entries = old(hasher)@.entries(hash / 256, old(hasher).spec_block_size());
    let n = old(hasher).common.params.num_last_distances_to_check as int;
    let start = SearchState::spec_start(*old(out));
    law_one_recent_more(c, distance_cache@, i, *old(out), m);
    lemma_recent_score_grows(c, distance_cache@, i + 1, n, start);
    lemma_recent_score_grows(c, distance_cache@, i, i + 1, start);
    law_recent_first(c, distance_cache@, n, tag, *old(out));
    law_score_grows(c, distance_cache@, n, entries, tag, *old(out), 0);
    assert(entries.take(0) =~= Seq::empty());
    c.lemma_search_sound(distance_cache@, n, entries, tag, *old(out));
}

/// A search stores its position, as storing it does, whatever it finds.
pub proof fn law_search_stores<Specialization: TaggedHashSpecialization>(
    hasher: &mut TaggedHasher<Specialization>,
    has_dictionary: bool,
    data: &[u8],
    ring_buffer_mask: usize,
    ring_buffer_break: Option<usize>,
    distance_cache: &[i32],
    cur_ix: usize,
    max_length: usize,
    max_backward: usize,
    gap: usize,
    max_distance: usize,
    out: &mut HasherSearchResult,
    searched: Searched,
    other: &mut TaggedHasher<Specialization>,
)
    requires
        *old(other) == *old(hasher),
        call_ensures(
            TaggedHasher::<Specialization>::find_longest_match_simd,
            (
                hasher,
                has_dictionary,
                data,
                ring_buffer_mask,
                ring_buffer_break,
                distance_cache,
                cur_ix,
                max_length,
                max_backward,
                gap,
                max_distance,
                out,
            ),
            searched,
        ),
        call_ensures(
            TaggedHasher::<Specialization>::Store,
            (other, data, ring_buffer_mask, cur_ix),
            (),
        ),
    ensures
        final(hasher)@ == final(other)@,
        final(hasher).common == old(hasher).common,
        final(hasher).specialization == old(hasher).specialization,
        final(hasher).h9_opts == old(hasher).h9_opts,
        final(out).len_x_code == 0,
{
    let c = context_of(
        data,
        ring_buffer_mask,
        ring_buffer_break,
        cur_ix,
        max_length,
        max_backward,
        old(hasher).h9_opts.literal_byte_score,
    );
    let hash = old(hasher).specialization.spec_hash(data@.skip(here(c)));
    let entries = old(hasher)@.entries(hash / 256, old(hasher).spec_block_size());
    let n = old(hasher).common.params.num_last_distances_to_check as int;
    c.lemma_search_sound(distance_cache@, n, entries, (hash % 256) as u8, *old(out));
}

} // verus!
