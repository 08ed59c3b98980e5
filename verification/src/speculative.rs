//! Greedy speculative verification: proposed tokens are accepted while they
//! match the target model's greedy choices; the first mismatch is replaced by
//! the target's choice, and when all match the target's next choice is added.

use vstd::prelude::*;

verus! {

/// Result of speculative candidate verification.
#[derive(Debug, Clone, PartialEq)]
pub struct SpeculativeVerificationResult {
    /// Newly emitted tokens: the accepted candidates, then the target's token.
    /// Does not include the already-committed base token.
    pub emitted_tokens: Vec<u32>,
    /// Number of proposed candidate tokens that were verified and accepted (0..=K).
    pub n_accepted: usize,
    /// The final bonus / correction token chosen by the target model.
    pub bonus_token: u32,
    /// Total new tokens emitted in this single speculative step (`emitted_tokens.len()`).
    pub total_emitted: usize,
}

/// Speculative verifier evaluating candidate tokens against the target model.
pub struct SpeculativeVerifier;

impl SpeculativeVerifier {
    /// Deterministic greedy verification.
    ///
    /// `target_tokens[i]` is the target model's greedy choice at position
    /// `t + i + 1`: `target_tokens[i]` is checked against `candidates[i]`, and
    /// `target_tokens[K]` is the bonus token when all `K` candidates match.
    pub fn verify_greedy_tokens(candidates: &[u32], target_tokens: &[u32]) -> (r:
        SpeculativeVerificationResult)
        requires
            target_tokens@.len() == candidates@.len() + 1,
        ensures
            r.n_accepted <= candidates@.len(),
            forall|i: int| 0 <= i < r.n_accepted ==> candidates@[i] == target_tokens@[i],
            r.n_accepted < candidates@.len() ==> candidates@[r.n_accepted as int]
                != target_tokens@[r.n_accepted as int],
            r.bonus_token == target_tokens@[r.n_accepted as int],
            r.emitted_tokens@ == candidates@.subrange(0, r.n_accepted as int).push(r.bonus_token),
            r.total_emitted == r.n_accepted + 1,
    {
        let k = candidates.len();
        let mut emitted: Vec<u32> = Vec::new();
        let mut n_accepted: usize = 0;
        while n_accepted < k
            invariant
                k == candidates@.len(),
                target_tokens@.len() == k + 1,
                n_accepted <= k,
                forall|i: int| 0 <= i < n_accepted ==> candidates@[i] == target_tokens@[i],
                emitted@ == candidates@.subrange(0, n_accepted as int),
            decreases k - n_accepted,
        {
            let cand = candidates[n_accepted];
            let target_tok = target_tokens[n_accepted];
            if target_tok != cand {
                // First mismatch: emit the target's token as correction.
                emitted.push(target_tok);
                let total_emitted = emitted.len();
                return SpeculativeVerificationResult {
                    emitted_tokens: emitted,
                    n_accepted,
                    bonus_token: target_tok,
                    total_emitted,
                };
            }
            emitted.push(cand);
            proof {
                assert(candidates@.subrange(0, n_accepted + 1) =~= candidates@.subrange(
                    0,
                    n_accepted as int,
                ).push(cand));
            }
            n_accepted = n_accepted + 1;
        }
        // All K candidates accepted: the bonus token is the target's next choice.
        let bonus_token = target_tokens[k];
        emitted.push(bonus_token);
        let total_emitted = emitted.len();
        SpeculativeVerificationResult { emitted_tokens: emitted, n_accepted, bonus_token, total_emitted }
    }
}

} // verus!
