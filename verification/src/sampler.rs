//! Deterministic seedable random source of the token sampler, and stop-sequence
//! detection.

use vstd::prelude::*;
use crate::text::{chars_of, contains_chars, occurs_in, str_eq};

verus! {

/// The seed used when a zero seed is given (zero is a fixed point of xorshift).
pub const ZERO_SEED_REPLACEMENT: u64 = 0x853c49e6748fea9b;

/// One xorshift64 step: `x ^= x << 13; x ^= x >> 7; x ^= x << 17`.
pub open spec fn xorshift_step(x: u64) -> u64 {
    let a = x ^ (x << 13u64);
    let b = a ^ (a >> 7u64);
    b ^ (b << 17u64)
}

/// The state a generator seeded with `seed` starts in.
pub open spec fn seeded_state(seed: u64) -> u64 {
    if seed == 0 {
        ZERO_SEED_REPLACEMENT
    } else {
        seed
    }
}

/// Simple fast 64-bit Xorshift PRNG for reproducible sampling without heavy dependencies.
#[derive(Debug, Clone, Copy)]
pub struct XorShift64 {
    state: u64,
}

/// The xorshift step maps a non-zero state to a non-zero state.
pub proof fn lemma_xorshift_nonzero(x: u64)
    requires
        x != 0,
    ensures
        xorshift_step(x) != 0,
{
    assert(x != 0 ==> (x ^ (x << 13u64)) != 0) by (bit_vector);
    let a = x ^ (x << 13u64);
    assert(a != 0 ==> (a ^ (a >> 7u64)) != 0) by (bit_vector);
    let b = a ^ (a >> 7u64);
    assert(b != 0 ==> (b ^ (b << 17u64)) != 0) by (bit_vector);
}

impl XorShift64 {
    /// The current internal state.
    pub closed spec fn state(&self) -> u64 {
        self.state
    }

    /// The state is never zero.
    #[verifier::type_invariant]
    spec fn inv(self) -> bool {
        self.state != 0
    }

    pub fn new(seed: u64) -> (r: Self)
        ensures
            r.state() == seeded_state(seed),
    {
        XorShift64 { state: if seed == 0 { ZERO_SEED_REPLACEMENT } else { seed } }
    }

    /// Advances the generator and returns the new state.
    pub fn next_u64(&mut self) -> (x: u64)
        ensures
            x == xorshift_step(old(self).state()),
            final(self).state() == x,
            x != 0,
    {
        proof {
            use_type_invariant(&*self);
            lemma_xorshift_nonzero(self.state);
        }
        let mut x = self.state;
        x ^= x << 13;
        x ^= x >> 7;
        x ^= x << 17;
        self.state = x;
        x
    }
}

/// Production token sampler (its random source; the floating-point sampling
/// itself lives outside the verified library).
pub struct Sampler {
    rng: XorShift64,
}

impl Sampler {
    /// The state of the sampler's random source.
    pub closed spec fn rng_state(&self) -> u64 {
        self.rng.state()
    }

    /// Creates a new sampler with initial random seed.
    pub fn new(seed: u64) -> (s: Self)
        ensures
            s.rng_state() == seeded_state(seed),
    {
        Sampler { rng: XorShift64::new(seed) }
    }

    /// Resets the internal PRNG seed.
    pub fn set_seed(&mut self, seed: u64)
        ensures
            final(self).rng_state() == seeded_state(seed),
    {
        self.rng = XorShift64::new(seed);
    }

    /// Draws the next raw 64-bit value from the sampler's random source.
    pub fn next_u64(&mut self) -> (x: u64)
        ensures
            x == xorshift_step(old(self).rng_state()),
            final(self).rng_state() == x,
    {
        self.rng.next_u64()
    }

    /// Checks if a token ID or generated text piece triggers any stop sequences:
    /// the token is a stop token, or some non-empty stop string occurs in the piece.
    pub fn is_stop_sequence(
        token_id: u32,
        piece: &str,
        stop_tokens: &[u32],
        stop_strings: &[String],
    ) -> (stop: bool)
        ensures
            stop == (stop_tokens@.contains(token_id) || exists|i: int|
                0 <= i < stop_strings@.len() && #[trigger] stop_strings@[i]@.len() > 0 && (
                occurs_in(stop_strings@[i]@, piece@) || piece@ == stop_strings@[i]@)),
    {
        let mut j: usize = 0;
        while j < stop_tokens.len()
            invariant
                j <= stop_tokens@.len(),
                forall|k: int| 0 <= k < j ==> stop_tokens@[k] != token_id,
            decreases stop_tokens@.len() - j,
        {
            if stop_tokens[j] == token_id {
                proof {
                    assert(stop_tokens@[j as int] == token_id);
                }
                return true;
            }
            j = j + 1;
        }
        let hay = chars_of(piece);
        let mut i: usize = 0;
        while i < stop_strings.len()
            invariant
                !stop_tokens@.contains(token_id),
                hay@ == piece@,
                i <= stop_strings@.len(),
                forall|k: int|
                    0 <= k < i ==> !(#[trigger] stop_strings@[k]@.len() > 0 && (occurs_in(
                        stop_strings@[k]@,
                        piece@,
                    ) || piece@ == stop_strings@[k]@)),
            decreases stop_strings@.len() - i,
        {
            let needle = chars_of(stop_strings[i].as_str());
            if needle.len() > 0 {
                if contains_chars(&hay, &needle) || str_eq(piece, stop_strings[i].as_str()) {
                    return true;
                }
            }
            i = i + 1;
        }
        false
    }
}

impl Default for Sampler {
    fn default() -> (s: Self)
        ensures
            s.rng_state() == seeded_state(42),
    {
        Self::new(42)
    }
}

} // verus!
