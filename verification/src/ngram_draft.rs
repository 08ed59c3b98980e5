//! Context n-gram draft proposer for speculative decoding.
//!
//! Scans the token history for an earlier occurrence of the current suffix and
//! proposes the tokens that followed it as draft candidates.

use vstd::prelude::*;
use vstd::slice::{slice_subrange, slice_to_vec};

verus! {

/// Fast context-based n-gram speculative proposer.
#[derive(Debug, Clone)]
pub struct NgramDraftProposer {
    /// Maximum candidate tokens to propose.
    pub max_draft_k: usize,
    /// Maximum n-gram window size to match (typically 3 or 4).
    pub max_ngram_size: usize,
    /// Minimum n-gram window size to match (typically 2).
    pub min_ngram_size: usize,
}

/// The window `h[i .. i + n]` equals the suffix `h[len - n .. len]`.
pub open spec fn window_matches_suffix(h: Seq<u32>, n: int, i: int) -> bool {
    h.subrange(i, i + n) =~= h.subrange(h.len() - n, h.len() as int)
}

impl NgramDraftProposer {
    /// Largest n-gram length that is tried for a history of length `t`.
    pub open spec fn top_n(self, t: int) -> int {
        if (self.max_ngram_size as int) < t - 1 { self.max_ngram_size as int } else { t - 1 }
    }

    /// `(n, i)` is an occurrence that `propose` may draw from: the history is
    /// long enough, `n` lies in the searched window range, the window at `i`
    /// ends before the suffix starts and equals it, and at least one draft
    /// token is wanted.
    pub open spec fn is_candidate(self, h: Seq<u32>, n: int, i: int) -> bool {
        &&& self.max_draft_k > 0
        &&& h.len() >= self.min_ngram_size + 1
        &&& self.min_ngram_size <= n <= self.top_n(h.len() as int)
        &&& 0 <= i < h.len() - n
        &&& window_matches_suffix(h, n, i)
    }

    /// The continuation proposed for the occurrence `(n, i)`: the at most
    /// `max_draft_k` tokens that followed it.
    pub open spec fn continuation(self, h: Seq<u32>, n: int, i: int) -> Seq<u32> {
        let start = i + n;
        let end = if start + self.max_draft_k < h.len() {
            start + self.max_draft_k
        } else {
            h.len() as int
        };
        h.subrange(start, end)
    }

    /// `(n, i)` is the preferred occurrence: longest n-gram first, and among
    /// equal lengths the most recent one.
    pub open spec fn is_best_candidate(self, h: Seq<u32>, n: int, i: int) -> bool {
        &&& self.is_candidate(h, n, i)
        &&& forall|n2: int, i2: int|
            #![trigger self.is_candidate(h, n2, i2)]
            self.is_candidate(h, n2, i2) ==> n2 < n || (n2 == n && i2 <= i)
    }

    /// Constructs a new proposer with specified draft length and n-gram bounds.
    pub fn new(max_draft_k: usize, max_ngram_size: usize, min_ngram_size: usize) -> (p: Self)
        ensures
            p.max_draft_k == if max_draft_k < 1 { 1 } else { max_draft_k },
            p.max_ngram_size == if max_ngram_size < 2 { 2 } else { max_ngram_size },
            p.min_ngram_size == {
                let lo = if min_ngram_size < 1 { 1 } else { min_ngram_size };
                if lo < max_ngram_size { lo } else { max_ngram_size }
            },
    {
        let k = if max_draft_k < 1 { 1 } else { max_draft_k };
        let hi = if max_ngram_size < 2 { 2 } else { max_ngram_size };
        let lo0 = if min_ngram_size < 1 { 1 } else { min_ngram_size };
        let lo = if lo0 < max_ngram_size { lo0 } else { max_ngram_size };
        NgramDraftProposer { max_draft_k: k, max_ngram_size: hi, min_ngram_size: lo }
    }

    /// Proposes candidate tokens by finding the longest matching suffix in `history`,
    /// preferring the most recent earlier occurrence, and returning the tokens that
    /// followed it (at most `max_draft_k` of them).
    pub fn propose(&self, history: &[u32]) -> (draft: Vec<u32>)
        requires
            self.min_ngram_size < usize::MAX,
        ensures
            draft@.len() == 0 <==> !(exists|n: int, i: int| self.is_candidate(history@, n, i)),
            draft@.len() > 0 ==> exists|n: int, i: int|
                #[trigger] self.is_best_candidate(history@, n, i)
                    && draft@ == self.continuation(history@, n, i),
    {
        let t = history.len();
        let ghost h = history@;
        if t < self.min_ngram_size + 1 || self.max_draft_k == 0 {
            proof {
                assert forall|n: int, i: int| !self.is_candidate(h, n, i) by {}
            }
            return Vec::new();
        }
        let top = if self.max_ngram_size < t - 1 { self.max_ngram_size } else { t - 1 };
        // `n` runs from `top` down to `min_ngram_size`; `n_next` is one past it.
        let mut n_next = top + 1;
        while n_next > self.min_ngram_size
            invariant
                t == h.len(),
                h == history@,
                t >= self.min_ngram_size + 1,
                self.max_draft_k > 0,
                top == self.top_n(t as int),
                n_next <= top + 1,
                forall|n2: int, i2: int|
                    #![trigger self.is_candidate(h, n2, i2)]
                    self.is_candidate(h, n2, i2) ==> n2 < n_next,
            decreases n_next,
        {
            let n = n_next - 1;
            let search_limit = t - n;
            let mut i_next = search_limit;
            while i_next > 0
                invariant
                    t == h.len(),
                    h == history@,
                    t >= self.min_ngram_size + 1,
                    self.max_draft_k > 0,
                    top == self.top_n(t as int),
                    self.min_ngram_size <= n <= top,
                    n_next == n + 1,
                    search_limit == t - n,
                    i_next <= search_limit,
                    forall|n2: int, i2: int|
                        #![trigger self.is_candidate(h, n2, i2)]
                        self.is_candidate(h, n2, i2) ==> n2 < n_next,
                    forall|i2: int|
                        #![trigger self.is_candidate(h, n as int, i2)]
                        self.is_candidate(h, n as int, i2) ==> i2 < i_next,
                decreases i_next,
            {
                let i = i_next - 1;
                if window_eq(history, i, t - n, n) {
                    let cont_start = i + n;
                    let cont_end = if self.max_draft_k < t - cont_start {
                        cont_start + self.max_draft_k
                    } else {
                        t
                    };
                    let out = copy_range(history, cont_start, cont_end);
                    proof {
                        assert(self.is_candidate(h, n as int, i as int));
                        assert(self.is_best_candidate(h, n as int, i as int));
                    }
                    return out;
                }
                proof {
                    assert(!self.is_candidate(h, n as int, i as int));
                }
                i_next = i;
            }
            n_next = n;
        }
        Vec::new()
    }
}

impl Default for NgramDraftProposer {
    fn default() -> (p: Self)
        ensures
            p.max_draft_k == 3,
            p.max_ngram_size == 4,
            p.min_ngram_size == 2,
    {
        NgramDraftProposer { max_draft_k: 3, max_ngram_size: 4, min_ngram_size: 2 }
    }
}

/// Whether the two windows `h[a .. a + n]` and `h[b .. b + n]` hold the same tokens.
fn window_eq(h: &[u32], a: usize, b: usize, n: usize) -> (eq: bool)
    requires
        a + n <= h@.len(),
        b + n <= h@.len(),
    ensures
        eq == (h@.subrange(a as int, a + n) =~= h@.subrange(b as int, b + n)),
{
    let len = h.len();
    let mut k: usize = 0;
    while k < n
        invariant
            len == h@.len(),
            k <= n,
            a + n <= h@.len(),
            b + n <= h@.len(),
            h@.subrange(a as int, a + k) =~= h@.subrange(b as int, b + k),
        decreases n - k,
    {
        assert(a + k < a + n && b + k < b + n);
        if h[a + k] != h[b + k] {
            proof {
                assert(h@.subrange(a as int, a + n)[k as int] != h@.subrange(b as int, b + n)[k as int]);
            }
            return false;
        }
        proof {
            assert(h@.subrange(a as int, a + k + 1) =~= h@.subrange(a as int, a + k).push(h@[a + k]));
            assert(h@.subrange(b as int, b + k + 1) =~= h@.subrange(b as int, b + k).push(h@[b + k]));
        }
        k = k + 1;
    }
    true
}

/// Copies `h[from .. to]` into a new vector.
fn copy_range(h: &[u32], from: usize, to: usize) -> (out: Vec<u32>)
    requires
        from <= to <= h@.len(),
    ensures
        out@ == h@.subrange(from as int, to as int),
{
    slice_to_vec(slice_subrange(h, from, to))
}

} // verus!
