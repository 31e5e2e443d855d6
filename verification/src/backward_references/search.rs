//! One search for the longest match, apart from where its candidates come from.
//!
//! A search first tries the recent distances, then the candidates of a hash bucket, newest first. It
//! keeps the match with the best score, and the length of that match decides which later candidates
//! are worth measuring.
use super::{
    fix_unbroken_len, BackwardReferencePenaltyUsingLastDistance, BackwardReferenceScore,
    BackwardReferenceScoreUsingLastDistance, H9Opts, HasherSearchResult,
};
use crate::static_dict::{FindMatchLengthWithLimit, BROTLI_UNALIGNED_LOAD32};
use vstd::prelude::*;

verus! {

/// Where a search looks and how far.
#[derive(Clone, Copy)]
pub struct SearchContext<'a> {
    pub data: &'a [u8],
    pub ring_buffer_mask: usize,
    pub ring_buffer_break: Option<usize>,
    pub cur_ix: usize,
    pub max_length: usize,
    pub max_backward: usize,
    pub opts: H9Opts,
}

/// How far a search has come.
#[derive(Clone, Copy, PartialEq, Eq, Debug, Structural)]
pub struct SearchState {
    pub best_score: u64,
    pub best_len: usize,
    pub out: HasherSearchResult,
    pub found: bool,
}

impl SearchState {
    /// A search that starts from the result `out` of an earlier one.
    pub open spec fn spec_start(out: HasherSearchResult) -> SearchState {
        SearchState {
            best_score: out.score,
            best_len: out.len,
            out: HasherSearchResult { len: 0, len_x_code: 0, ..out },
            found: false,
        }
    }

    /// Starts from the result `out` of an earlier search.
    pub fn start(out: HasherSearchResult) -> (state: SearchState)
        ensures
            state == SearchState::spec_start(out),
    {
        SearchState {
            best_score: out.score,
            best_len: out.len,
            out: HasherSearchResult { len: 0, len_x_code: 0, ..out },
            found: false,
        }
    }

    /// Takes a match with a better score.
    pub open spec fn spec_improve(self, len: usize, distance: usize, score: u64) -> SearchState {
        SearchState {
            best_score: score,
            best_len: len,
            out: HasherSearchResult { len, distance, score, ..self.out },
            found: true,
        }
    }

    /// Takes a match with a better score.
    pub fn improve(self, len: usize, distance: usize, score: u64) -> (state: SearchState)
        ensures
            state == self.spec_improve(len, distance, score),
    {
        SearchState {
            best_score: score,
            best_len: len,
            out: HasherSearchResult { len, distance, score, ..self.out },
            found: true,
        }
    }

    /// A match shorter than four bytes no longer counts once bucket candidates are tried.
    pub open spec fn spec_for_bucket(self) -> SearchState {
        SearchState { best_len: if self.best_len < 3 { 3 } else { self.best_len }, ..self }
    }

    /// Goes on to the candidates of a bucket.
    pub fn for_bucket(self) -> (state: SearchState)
        ensures
            state == self.spec_for_bucket(),
    {
        SearchState { best_len: if self.best_len < 3 { 3 } else { self.best_len }, ..self }
    }
}

/// A masked position lies within the mask.
pub proof fn lemma_masked(ix: usize, mask: usize)
    ensures
        ix & mask <= mask,
{
    assert(ix & mask <= mask) by (bit_vector);
}

impl<'a> SearchContext<'a> {
    /// Where position `ix` stands in the ring buffer.
    pub open spec fn masked(&self, ix: usize) -> int {
        (ix & self.ring_buffer_mask) as int
    }

    /// How many bytes agree at `p` and at the current position, up to the length limit.
    pub open spec fn shared(&self, p: int) -> int {
        crate::static_dict::common_prefix(
            self.data@.skip(p),
            self.data@.skip(self.masked(self.cur_ix)),
            self.max_length as int,
        )
    }

    /// How long a match at `p` counts.
    pub open spec fn match_len(&self, p: int) -> usize {
        super::unbroken_len(self.shared(p), p, self.ring_buffer_break) as usize
    }

    /// The byte behind `best_len` others is there both at `p` and at the current position. A ring
    /// buffer that is not full yet may hold fewer bytes than its mask lets through.
    pub open spec fn in_data(&self, p: int, best_len: usize) -> bool {
        &&& self.masked(self.cur_ix) + best_len < self.data@.len()
        &&& p + best_len < self.data@.len()
    }

    /// A match at `p` could be longer than `best_len`: both ends stay in the ring buffer, and the
    /// bytes that decide agree.
    pub open spec fn extends(&self, p: int, best_len: usize) -> bool {
        let cur = self.masked(self.cur_ix);
        &&& cur + best_len <= self.ring_buffer_mask
        &&& p + best_len <= self.ring_buffer_mask
        &&& self.in_data(p, best_len)
        &&& self.data@[cur + best_len] == self.data@[p + best_len]
    }

    /// Tries entry `i` of the distance cache, which holds `distance`.
    pub open spec fn spec_try_recent(&self, distance: i32, i: usize, state: SearchState) -> SearchState {
        let backward = distance as usize;
        let prev = self.cur_ix.wrapping_sub(backward);
        let p = self.masked(prev);
        if prev >= self.cur_ix || backward > self.max_backward || !self.extends(p, state.best_len)
            || !(self.shared(p) >= 3 || (self.shared(p) == 2 && i < 2)) {
            state
        } else {
            let len = self.match_len(p);
            let full = super::last_distance_score(len, self.opts);
            let score = if i == 0 {
                full
            } else {
                full.wrapping_sub(super::last_distance_penalty(i))
            };
            if state.best_score < full && state.best_score < score {
                state.spec_improve(len, backward, score)
            } else {
                state
            }
        }
    }

    /// Tries the first `n` entries of the distance cache.
    pub open spec fn spec_try_all_recent(&self, cache: Seq<i32>, n: int, state: SearchState) -> SearchState
        decreases n,
    {
        if n <= 0 {
            state
        } else {
            self.spec_try_recent(
                cache[n - 1],
                (n - 1) as usize,
                self.spec_try_all_recent(cache, n - 1, state),
            )
        }
    }

    /// Tries entry `i` of the distance cache, which holds `distance`.
    pub fn try_recent(&self, distance: i32, i: usize, state: SearchState) -> (next: SearchState)
        ensures
            next == self.spec_try_recent(distance, i, state),
    {
        let cur_ix_masked: usize = self.cur_ix & self.ring_buffer_mask;
        #[verifier::truncate]
        let backward: usize = distance as usize;
        let prev: usize = self.cur_ix.wrapping_sub(backward);
        if prev >= self.cur_ix || backward > self.max_backward {
            return state;
        }
        let prev_ix: usize = prev & self.ring_buffer_mask;
        proof {
            lemma_masked(self.cur_ix, self.ring_buffer_mask);
            lemma_masked(prev, self.ring_buffer_mask);
        }
        if state.best_len > self.ring_buffer_mask - cur_ix_masked || state.best_len
            > self.ring_buffer_mask - prev_ix || !self.has(cur_ix_masked, state.best_len)
            || !self.has(prev_ix, state.best_len) || self.data[cur_ix_masked + state.best_len]
            != self.data[prev_ix + state.best_len] {
            return state;
        }
        let shared: usize = self.measure(prev_ix);
        if shared >= 3 || (shared == 2 && i < 2) {
            let len: usize = fix_unbroken_len(shared, prev_ix, self.ring_buffer_break);
            let mut score: u64 = BackwardReferenceScoreUsingLastDistance(len, self.opts);
            if state.best_score < score {
                if i != 0 {
                    score = score.wrapping_sub(BackwardReferencePenaltyUsingLastDistance(i));
                }
                if state.best_score < score {
                    return state.improve(len, backward, score);
                }
            }
        }
        state
    }

    /// Tries the first `n` entries of the distance cache.
    pub fn try_all_recent(&self, cache: &[i32], n: usize, state: SearchState) -> (next: SearchState)
        requires
            n <= cache@.len(),
        ensures
            next == self.spec_try_all_recent(cache@, n as int, state),
    {
        let mut next = state;
        let mut i: usize = 0;
        while i < n
            invariant
                i <= n <= cache@.len(),
                next == self.spec_try_all_recent(cache@, i as int, state),
            decreases n - i,
        {
            next = self.try_recent(cache[i], i, next);
            i += 1;
        }
        next
    }

    /// Whether the byte `offset` places behind `at` is there.
    fn has(&self, at: usize, offset: usize) -> (there: bool)
        ensures
            there == (at + offset < self.data@.len()),
    {
        at < self.data.len() && offset < self.data.len() - at
    }

    /// Measures how many bytes agree at `p` and at the current position.
    fn measure(&self, p: usize) -> (shared: usize)
        requires
            p <= self.data@.len(),
            self.masked(self.cur_ix) <= self.data@.len(),
        ensures
            shared == self.shared(p as int),
            p + shared <= self.data@.len(),
            shared <= self.max_length,
    {
        let cur_ix_masked: usize = self.cur_ix & self.ring_buffer_mask;
        proof {
            assert(self.data@.subrange(p as int, self.data@.len() as int) =~= self.data@.skip(
                p as int,
            ));
            assert(self.data@.subrange(cur_ix_masked as int, self.data@.len() as int)
                =~= self.data@.skip(cur_ix_masked as int));
            crate::static_dict::lemma_common_prefix(
                self.data@.skip(p as int),
                self.data@.skip(cur_ix_masked as int),
                self.max_length as int,
            );
        }
        FindMatchLengthWithLimit(
            &self.data[p..self.data.len()],
            &self.data[cur_ix_masked..self.data.len()],
            self.max_length,
        )
    }

    /// No candidate from position `prev` on is worth trying: it lies too far back, or nothing longer
    /// fits in the ring buffer.
    pub open spec fn ends_at(&self, prev: u32, state: SearchState) -> bool {
        ||| self.cur_ix.wrapping_sub(prev as usize) > self.max_backward
        ||| self.masked(self.cur_ix) + state.best_len > self.ring_buffer_mask
    }

    /// The four bytes that end a match of `best_len + 1` bytes agree at `p` and at the current
    /// position.
    pub open spec fn tail_agrees(&self, p: int, best_len: usize) -> bool {
        &&& self.in_data(p, best_len)
        &&& crate::static_dict::load32(self.data@.skip(self.masked(self.cur_ix) + best_len - 3))
            == crate::static_dict::load32(self.data@.skip(p + best_len - 3))
    }

    /// Tries position `prev` of a bucket. However short the break cuts a match, later candidates are
    /// held against at least three bytes.
    pub open spec fn spec_try_candidate(&self, prev: u32, state: SearchState) -> SearchState {
        let backward = self.cur_ix.wrapping_sub(prev as usize);
        let p = self.masked(prev as usize);
        if p + state.best_len > self.ring_buffer_mask || !self.tail_agrees(p, state.best_len)
            || self.shared(p) < 4 {
            state
        } else {
            let len = self.match_len(p);
            let score = super::backward_reference_score(len, backward, self.opts);
            if state.best_score < score {
                state.spec_improve(len, backward, score).spec_for_bucket()
            } else {
                state
            }
        }
    }

    /// Tries those of `entries`, from the `k`-th on, that carry `tag`, until one ends the search.
    pub open spec fn spec_try_bucket(
        &self,
        entries: Seq<(u32, u8)>,
        tag: u8,
        k: int,
        state: SearchState,
    ) -> SearchState
        decreases entries.len() - k,
    {
        if k >= entries.len() {
            state
        } else if entries[k].1 != tag {
            self.spec_try_bucket(entries, tag, k + 1, state)
        } else if self.ends_at(entries[k].0, state) {
            state
        } else {
            self.spec_try_bucket(
                entries,
                tag,
                k + 1,
                self.spec_try_candidate(entries[k].0, state),
            )
        }
    }

    /// The whole search: recent distances first, then what a bucket holds under `tag`.
    pub open spec fn spec_search(
        &self,
        cache: Seq<i32>,
        n: int,
        entries: Seq<(u32, u8)>,
        tag: u8,
        out: HasherSearchResult,
    ) -> SearchState {
        self.spec_try_bucket(
            entries,
            tag,
            0,
            self.spec_try_all_recent(cache, n, SearchState::spec_start(out)).spec_for_bucket(),
        )
    }

    /// Tries position `prev` of a bucket, or reports that the search ends here. With `from_four` a
    /// candidate whose first four bytes differ is dropped before it is measured.
    pub fn try_candidate(&self, prev: u32, from_four: bool, state: SearchState) -> (next: Option<
        SearchState,
    >)
        requires
            state.best_len >= 3,
        ensures
            next is None <==> self.ends_at(prev, state),
            next matches Some(after) ==> after == self.spec_try_candidate(prev, state)
                && after.best_len >= 3,
    {
        let cur_ix_masked: usize = self.cur_ix & self.ring_buffer_mask;
        let prev_ix: usize = prev as usize & self.ring_buffer_mask;
        let end: usize = self.data.len();
        let backward: usize = self.cur_ix.wrapping_sub(prev as usize);
        proof {
            lemma_masked(self.cur_ix, self.ring_buffer_mask);
            lemma_masked(prev as usize, self.ring_buffer_mask);
        }
        if backward > self.max_backward {
            return None;
        }
        if state.best_len > self.ring_buffer_mask - cur_ix_masked {
            return None;
        }
        if state.best_len > self.ring_buffer_mask - prev_ix || !self.has(
            cur_ix_masked,
            state.best_len,
        ) || !self.has(prev_ix, state.best_len) || self.load(cur_ix_masked + state.best_len - 3)
            != self.load(prev_ix + state.best_len - 3) {
            return Some(state);
        }
        let ghost cur_bytes = self.data@.skip(cur_ix_masked as int);
        let ghost prev_bytes = self.data@.skip(prev_ix as int);
        let shared: usize = if from_four && self.max_length >= 4 {
            let differ: bool = self.load(cur_ix_masked) != self.load(prev_ix);
            proof {
                lemma_first_four(prev_bytes, cur_bytes, self.max_length as int);
            }
            if differ {
                return Some(state);
            }
            proof {
                assert(self.data@.subrange(prev_ix + 4, self.data@.len() as int)
                    =~= prev_bytes.skip(4));
                assert(self.data@.subrange(cur_ix_masked + 4, self.data@.len() as int)
                    =~= cur_bytes.skip(4));
                crate::static_dict::lemma_common_prefix(
                    prev_bytes,
                    cur_bytes,
                    self.max_length as int,
                );
            }
            FindMatchLengthWithLimit(
                &self.data[prev_ix + 4..end],
                &self.data[cur_ix_masked + 4..end],
                self.max_length - 4,
            ) + 4
        } else {
            self.measure(prev_ix)
        };
        if shared >= 4 {
            proof {
                crate::static_dict::lemma_common_prefix(
                    prev_bytes,
                    cur_bytes,
                    self.max_length as int,
                );
            }
            let len: usize = fix_unbroken_len(shared, prev_ix, self.ring_buffer_break);
            let score: u64 = BackwardReferenceScore(len, backward, self.opts);
            if state.best_score < score {
                return Some(state.improve(len, backward, score).for_bucket());
            }
        }
        Some(state)
    }

    /// `len` bytes at the current position occur again `distance` bytes before it, no farther back
    /// than allowed.
    pub open spec fn is_match(&self, len: int, distance: usize) -> bool {
        let p = self.masked(self.cur_ix.wrapping_sub(distance));
        let cur = self.masked(self.cur_ix);
        &&& 0 <= len <= self.max_length
        &&& distance <= self.max_backward
        &&& p + len <= self.data@.len()
        &&& cur + len <= self.data@.len()
        &&& forall|k: int|
            0 <= k < len ==> #[trigger] self.data@[p + k] == #[trigger] self.data@[cur + k]
    }

    /// What holds at every point of a search that started from `out`.
    pub open spec fn sound(&self, out: HasherSearchResult, state: SearchState) -> bool {
        if state.found {
            &&& state.out.score == state.best_score
            &&& state.best_score > out.score
            &&& state.out.len_x_code == 0
            &&& self.is_match(state.out.len as int, state.out.distance)
        } else {
            &&& state.best_score == out.score
            &&& state.out == SearchState::spec_start(out).out
        }
    }

    proof fn lemma_shared(&self, p: int)
        requires
            0 <= p <= self.data@.len(),
            self.masked(self.cur_ix) <= self.data@.len(),
        ensures
            0 <= self.shared(p) <= self.max_length,
            p + self.shared(p) <= self.data@.len(),
            self.masked(self.cur_ix) + self.shared(p) <= self.data@.len(),
            self.match_len(p) <= self.shared(p),
            forall|k: int|
                0 <= k < self.shared(p) ==> #[trigger] self.data@[p + k] == #[trigger] self.data@[
                self.masked(self.cur_ix) + k],
    {
        let cur = self.masked(self.cur_ix);
        let a = self.data@.skip(p);
        let b = self.data@.skip(cur);
        crate::static_dict::lemma_common_prefix(a, b, self.max_length as int);
        assert forall|k: int| 0 <= k < self.shared(p) implies #[trigger] self.data@[p + k]
            == #[trigger] self.data@[cur + k] by {
            assert(a[k] == b[k]);
        }
    }

    proof fn lemma_recent_sound(&self, cache: Seq<i32>, n: int, out: HasherSearchResult)
        ensures
            self.sound(out, self.spec_try_all_recent(cache, n, SearchState::spec_start(out))),
        decreases n,
    {
        if n > 0 {
            self.lemma_recent_sound(cache, n - 1, out);
            let before = self.spec_try_all_recent(cache, n - 1, SearchState::spec_start(out));
            let p = self.masked(self.cur_ix.wrapping_sub(cache[n - 1] as usize));
            if self.extends(p, before.best_len) {
                self.lemma_shared(p);
            }
        }
    }

    proof fn lemma_bucket_sound(
        &self,
        entries: Seq<(u32, u8)>,
        tag: u8,
        k: int,
        state: SearchState,
        out: HasherSearchResult,
    )
        requires
            self.sound(out, state),
            0 <= k,
        ensures
            self.sound(out, self.spec_try_bucket(entries, tag, k, state)),
        decreases entries.len() - k,
    {
        if k < entries.len() {
            if entries[k].1 != tag {
                self.lemma_bucket_sound(entries, tag, k + 1, state, out);
            } else if !self.ends_at(entries[k].0, state) {
                let prev = entries[k].0 as usize;
                let backward = self.cur_ix.wrapping_sub(prev);
                assert(self.cur_ix.wrapping_sub(backward) == prev);
                if self.tail_agrees(self.masked(prev), state.best_len) {
                    self.lemma_shared(self.masked(prev));
                }
                self.lemma_bucket_sound(
                    entries,
                    tag,
                    k + 1,
                    self.spec_try_candidate(entries[k].0, state),
                    out,
                );
            }
        }
    }

    /// What a search finds is a match: its bytes occur again at its distance, which is no larger than
    /// allowed, and its score is better than the one that the search started from. A search that
    /// finds nothing leaves the score and the distance alone and clears the lengths.
    pub proof fn lemma_search_sound(
        &self,
        cache: Seq<i32>,
        n: int,
        entries: Seq<(u32, u8)>,
        tag: u8,
        out: HasherSearchResult,
    )
        ensures
            self.sound(out, self.spec_search(cache, n, entries, tag, out)),
    {
        self.lemma_recent_sound(cache, n, out);
        self.lemma_bucket_sound(
            entries,
            tag,
            0,
            self.spec_try_all_recent(cache, n, SearchState::spec_start(out)).spec_for_bucket(),
            out,
        );
    }

    /// Whether what a search has found lies before the current position.
    pub open spec fn looks_back(&self, state: SearchState) -> bool {
        state.found ==> 1 <= state.out.distance <= self.cur_ix
    }

    proof fn lemma_recent_looks_back(&self, cache: Seq<i32>, n: int, out: HasherSearchResult)
        ensures
            self.looks_back(self.spec_try_all_recent(cache, n, SearchState::spec_start(out))),
        decreases n,
    {
        if n > 0 {
            self.lemma_recent_looks_back(cache, n - 1, out);
        }
    }

    proof fn lemma_bucket_looks_back(
        &self,
        entries: Seq<(u32, u8)>,
        tag: u8,
        k: int,
        state: SearchState,
    )
        requires
            0 <= k,
            self.looks_back(state),
            forall|i: int| 0 <= i < entries.len() ==> (#[trigger] entries[i]).0 < self.cur_ix,
        ensures
            self.looks_back(self.spec_try_bucket(entries, tag, k, state)),
        decreases entries.len() - k,
    {
        if k < entries.len() {
            assert(entries[k].0 < self.cur_ix);
            if entries[k].1 != tag {
                self.lemma_bucket_looks_back(entries, tag, k + 1, state);
            } else if !self.ends_at(entries[k].0, state) {
                self.lemma_bucket_looks_back(
                    entries,
                    tag,
                    k + 1,
                    self.spec_try_candidate(entries[k].0, state),
                );
            }
        }
    }

    /// A search looks back: where every stored position lies before the current one, what it finds lies
    /// at least one byte back, and no farther than the first byte.
    pub proof fn lemma_search_looks_back(
        &self,
        cache: Seq<i32>,
        n: int,
        entries: Seq<(u32, u8)>,
        tag: u8,
        out: HasherSearchResult,
    )
        requires
            forall|i: int| 0 <= i < entries.len() ==> (#[trigger] entries[i]).0 < self.cur_ix,
        ensures
            self.looks_back(self.spec_search(cache, n, entries, tag, out)),
    {
        self.lemma_recent_looks_back(cache, n, out);
        self.lemma_bucket_looks_back(
            entries,
            tag,
            0,
            self.spec_try_all_recent(cache, n, SearchState::spec_start(out)).spec_for_bucket(),
        );
    }

    /// Entries with other tags do not touch a search.
    pub proof fn lemma_skip(
        &self,
        entries: Seq<(u32, u8)>,
        tag: u8,
        k: int,
        j: int,
        state: SearchState,
    )
        requires
            k <= j <= entries.len(),
            forall|i: int| k <= i < j ==> (#[trigger] entries[i]).1 != tag,
        ensures
            self.spec_try_bucket(entries, tag, k, state) == self.spec_try_bucket(
                entries,
                tag,
                j,
                state,
            ),
        decreases j - k,
    {
        if k < j {
            assert(entries[k].1 != tag);
            self.lemma_skip(entries, tag, k + 1, j, state);
        }
    }

    /// The four bytes at `at`.
    fn load(&self, at: usize) -> (value: u32)
        requires
            at + 4 <= self.data@.len(),
        ensures
            value == crate::static_dict::load32(self.data@.skip(at as int)),
    {
        assert(self.data@.subrange(at as int, self.data@.len() as int) =~= self.data@.skip(
            at as int,
        ));
        BROTLI_UNALIGNED_LOAD32(&self.data[at..self.data.len()])
    }
}

/// Two strings load as the same number exactly if their first four bytes agree.
#[verifier::spinoff_prover]
pub proof fn lemma_load_four(a: Seq<u8>, b: Seq<u8>)
    requires
        a.len() >= 4,
        b.len() >= 4,
    ensures
        crate::static_dict::load32(a) == crate::static_dict::load32(b) <==> (a[0] == b[0] && a[1]
            == b[1] && a[2] == b[2] && a[3] == b[3]),
{
    let x = crate::static_dict::load32(a);
    let y = crate::static_dict::load32(b);
    assert(x % 0x100 == a[0] && y % 0x100 == b[0]);
    assert((x / 0x100) % 0x100 == a[1] && (y / 0x100) % 0x100 == b[1]);
    assert((x / 0x1_0000) % 0x100 == a[2] && (y / 0x1_0000) % 0x100 == b[2]);
    assert(x / 0x100_0000 == a[3] && y / 0x100_0000 == b[3]);
}

/// Where the first four bytes agree, measuring behind them gives the rest of the common prefix.
#[verifier::spinoff_prover]
proof fn lemma_prefix_behind_four(a: Seq<u8>, b: Seq<u8>, limit: int)
    requires
        a.len() >= 4,
        b.len() >= 4,
        limit >= 4,
        crate::static_dict::common_prefix(a, b, limit) >= 4,
    ensures
        crate::static_dict::common_prefix(a, b, limit) == crate::static_dict::common_prefix(
            a.skip(4),
            b.skip(4),
            limit - 4,
        ) + 4,
{
    crate::static_dict::lemma_common_prefix(a, b, limit);
    crate::static_dict::lemma_common_prefix(a.skip(4), b.skip(4), limit - 4);
    let n = crate::static_dict::common_prefix(a, b, limit);
    let m = crate::static_dict::common_prefix(a.skip(4), b.skip(4), limit - 4);
    if m + 4 < n {
        assert(a[m + 4] == b[m + 4]);
        assert(a.skip(4)[m] == b.skip(4)[m]);
    }
    if n < m + 4 {
        assert(a.skip(4)[n - 4] == b.skip(4)[n - 4]);
    }
}

/// Two strings share four bytes exactly if those bytes load as the same number, and then measuring
/// behind them gives the rest of the common prefix.
proof fn lemma_first_four(a: Seq<u8>, b: Seq<u8>, limit: int)
    requires
        a.len() >= 4,
        b.len() >= 4,
        limit >= 4,
    ensures
        crate::static_dict::common_prefix(a, b, limit) >= 4 <==> crate::static_dict::load32(a)
            == crate::static_dict::load32(b),
        crate::static_dict::load32(a) == crate::static_dict::load32(b)
            ==> crate::static_dict::common_prefix(a, b, limit)
            == crate::static_dict::common_prefix(a.skip(4), b.skip(4), limit - 4) + 4,
{
    let n = crate::static_dict::common_prefix(a, b, limit);
    lemma_load_four(a, b);
    crate::static_dict::lemma_common_prefix(a, b, limit);
    if n >= 4 {
        assert(a[0] == b[0] && a[1] == b[1] && a[2] == b[2] && a[3] == b[3]);
        lemma_prefix_behind_four(a, b, limit);
    }
}

} // verus!
