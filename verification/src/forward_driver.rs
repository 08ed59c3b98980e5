//! Decode-path selection and the device memory footprint of the forward driver.

use vstd::prelude::*;
use crate::error::EngineError;
use crate::text::{debug_format_str, debug_repr, push_str, str_eq};

verus! {

/// The name of the environment variable that selects the decode path.
pub open spec fn decode_path_env_name() -> Seq<char> {
    "TITAN_FORWARD_DECODE_PATH"@
}

/// Numeric path used by single-token decode.
#[derive(Debug, Clone, Copy, PartialEq, Eq, Structural)]
pub enum DecodePath {
    F32,
    Q8,
}

impl DecodePath {
    /// The name of the path, as the environment variable spells it.
    pub open spec fn name(self) -> Seq<char> {
        match self {
            DecodePath::F32 => "f32"@,
            DecodePath::Q8 => "q8"@,
        }
    }

    /// The name of the path.
    pub fn as_str(self) -> (s: &'static str)
        ensures
            s@ == self.name(),
    {
        match self {
            DecodePath::F32 => "f32",
            DecodePath::Q8 => "q8",
        }
    }
}

/// The message that rejects decode path value `v`.
pub open spec fn invalid_decode_path_message(v: Seq<char>) -> Seq<char> {
    "invalid "@ + decode_path_env_name() + "="@ + debug_repr(v) + "; expected \"f32\" or \"q8\""@
}

/// Parses the decode path setting; an unset value selects `f32`.
pub fn parse_decode_path(value: Option<&str>) -> (r: Result<DecodePath, String>)
    ensures
        ({
            let v = match value {
                Some(s) => s@,
                None => "f32"@,
            };
            &&& v == "f32"@ ==> r == Ok::<DecodePath, String>(DecodePath::F32)
            &&& v == "q8"@ ==> r == Ok::<DecodePath, String>(DecodePath::Q8)
            &&& v != "f32"@ && v != "q8"@ ==> (r matches Err(m) && m@
                == invalid_decode_path_message(v))
        }),
{
    let v = match value {
        Some(s) => s,
        None => "f32",
    };
    proof {
        reveal_strlit("f32");
        reveal_strlit("q8");
    }
    assert("f32"@.len() != "q8"@.len());
    if str_eq(v, "f32") {
        Ok(DecodePath::F32)
    } else if str_eq(v, "q8") {
        Ok(DecodePath::Q8)
    } else {
        let mut m = String::from_str("invalid ");
        push_str(&mut m, "TITAN_FORWARD_DECODE_PATH");
        push_str(&mut m, "=");
        let shown = debug_format_str(v);
        push_str(&mut m, shown.as_str());
        push_str(&mut m, "; expected \"f32\" or \"q8\"");
        Err(m)
    }
}

/// Resident transient working-set VRAM budget: `pingpong + kv_pool +
/// activations + logits` must stay within 5.2 GiB at every step.
pub const VRAM_BUDGET_BYTES: u64 = 5578424320;

/// Breakdown of transient and resident device memory footprint tracked by the driver.
#[derive(Debug, Clone, Copy, PartialEq, Eq, Structural)]
pub struct VramFootprint {
    /// Device memory occupied by uploaded layer weights (bytes).
    pub pingpong_bytes: usize,
    /// Device memory occupied by resident per-layer KV pools (bytes).
    pub kv_pool_bytes: usize,
    /// Device memory occupied by reusable scratch activations buffers (bytes).
    pub activations_bytes: usize,
    /// Device memory required for output logits (bytes).
    pub logits_bytes: usize,
}

impl VramFootprint {
    /// The sum of the four buckets.
    pub open spec fn sum(&self) -> int {
        self.pingpong_bytes + self.kv_pool_bytes + self.activations_bytes + self.logits_bytes
    }

    /// Total VRAM footprint across all four tracked buckets.
    pub fn total(&self) -> (t: usize)
        requires
            self.sum() <= usize::MAX,
        ensures
            t == self.sum(),
    {
        self.pingpong_bytes + self.kv_pool_bytes + self.activations_bytes + self.logits_bytes
    }

    /// Checks that the total footprint does not exceed `budget`; otherwise
    /// reports the budget and the footprint.
    pub fn assert_within_budget(&self, budget: usize) -> (r: Result<(), EngineError>)
        requires
            self.sum() <= usize::MAX,
        ensures
            r is Ok <==> self.sum() <= budget,
            r matches Err(e) ==> e == (EngineError::InvalidSize {
                expected: budget,
                actual: self.sum() as usize,
            }),
    {
        let total = self.total();
        if total > budget {
            return Err(EngineError::InvalidSize { expected: budget, actual: total });
        }
        Ok(())
    }
}

/// The most positions one speculative verification batch may hold.
pub const MAX_SPEC_K: usize = 8;

/// How a speculative verification step runs.
#[derive(Debug, Clone, Copy, PartialEq, Eq, Structural)]
pub enum SpeculativePlan {
    /// Decode the base token alone and sample one next token.
    SingleDecode,
    /// Run the base token and the `k - 1` candidates as one batch of `k` positions.
    Batch { k: usize },
}

/// Chooses how to verify `n_candidates` proposed tokens at position `pos` of a
/// sequence with room for `block_tokens` positions: with no candidates, without
/// room for all of them, or beyond [`MAX_SPEC_K`] positions, the step falls
/// back to a single decode.
pub fn plan_speculative_step(n_candidates: usize, pos: usize, block_tokens: usize) -> (p:
    SpeculativePlan)
    requires
        pos + n_candidates + 1 <= usize::MAX,
    ensures
        p == (if n_candidates == 0 || pos + n_candidates + 1 > block_tokens || n_candidates + 1
            > MAX_SPEC_K {
            SpeculativePlan::SingleDecode
        } else {
            SpeculativePlan::Batch { k: (n_candidates + 1) as usize }
        }),
{
    if n_candidates == 0 {
        return SpeculativePlan::SingleDecode;
    }
    let k = n_candidates + 1;
    if pos + k > block_tokens {
        return SpeculativePlan::SingleDecode;
    }
    if k > MAX_SPEC_K {
        return SpeculativePlan::SingleDecode;
    }
    SpeculativePlan::Batch { k }
}

/// The largest chunk that chunked prefill runs at once.
pub const MAX_PREFILL_CHUNK: usize = 512;

/// The chunk lengths that cut `rest` tokens into chunks of at most `limit`.
pub open spec fn chunk_lens(rest: nat, limit: nat) -> Seq<usize>
    decreases rest,
{
    if rest == 0 || limit == 0 {
        seq![]
    } else if rest <= limit {
        seq![rest as usize]
    } else {
        seq![limit as usize] + chunk_lens((rest - limit) as nat, limit)
    }
}

/// The sum of a list of lengths.
pub open spec fn total_len(lens: Seq<usize>) -> int
    decreases lens.len(),
{
    if lens.len() == 0 {
        0
    } else {
        lens[0] + total_len(lens.drop_first())
    }
}

/// The chunks cover the tokens exactly: their lengths add up to `rest`, and
/// every chunk holds between one and `limit` tokens.
pub proof fn lemma_chunks_cover(rest: nat, limit: nat)
    requires
        limit >= 1,
        rest <= usize::MAX,
    ensures
        total_len(chunk_lens(rest, limit)) == rest,
        forall|i: int|
            0 <= i < chunk_lens(rest, limit).len() ==> 1 <= #[trigger] chunk_lens(rest, limit)[i]
                <= limit,
    decreases rest,
{
    let c = chunk_lens(rest, limit);
    if rest > limit {
        lemma_chunks_cover((rest - limit) as nat, limit);
        assert(c.drop_first() =~= chunk_lens((rest - limit) as nat, limit));
        assert(c[0] == limit);
        assert(total_len(c) == c[0] + total_len(c.drop_first()));
        assert forall|i: int| 0 <= i < c.len() implies 1 <= #[trigger] c[i] <= limit by {
            if i > 0 {
                assert(c[i] == c.drop_first()[i - 1]);
            }
        }
    } else if rest > 0 {
        assert(c.drop_first() =~= Seq::<usize>::empty());
        assert(c[0] == rest);
        assert(total_len(c) == c[0] + total_len(c.drop_first()));
    }
}

/// Where chunked prefill starts and the lengths of the chunks it runs.
#[derive(Debug, Clone, PartialEq, Eq)]
pub struct PrefillChunks {
    /// The first position to compute: past a reusable cached prefix, else 0.
    pub start: usize,
    /// The lengths of the successive chunks from `start` on.
    pub chunk_lens: Vec<usize>,
}

/// Plans chunked prefill of `n_tokens` tokens into a sequence with room for
/// `block_tokens` positions. A cached prefix of `matched_tokens` tokens is
/// reused when the sequence stands exactly at its end (`pos`); the rest is
/// cut into chunks of `chunk_size` tokens, clamped to `1..=512`.
pub fn plan_prefill_chunks(
    n_tokens: usize,
    block_tokens: usize,
    matched_tokens: usize,
    pos: usize,
    chunk_size: usize,
) -> (r: Result<PrefillChunks, EngineError>)
    requires
        matched_tokens <= n_tokens,
    ensures
        n_tokens == 0 ==> (r matches Ok(p) && p.start == 0 && p.chunk_lens@.len() == 0),
        n_tokens > 0 && n_tokens > block_tokens ==> r == Err::<PrefillChunks, EngineError>(
            EngineError::InvalidSize { expected: block_tokens, actual: n_tokens },
        ),
        n_tokens > 0 && n_tokens <= block_tokens ==> (r matches Ok(p) && {
            let start = if matched_tokens > 0 && pos == matched_tokens {
                matched_tokens
            } else {
                0
            };
            let limit = if chunk_size == 0 {
                1
            } else if chunk_size > MAX_PREFILL_CHUNK {
                MAX_PREFILL_CHUNK
            } else {
                chunk_size
            };
            &&& p.start == start
            &&& p.chunk_lens@ == chunk_lens((n_tokens - start) as nat, limit as nat)
        }),
{
    if n_tokens == 0 {
        return Ok(PrefillChunks { start: 0, chunk_lens: Vec::new() });
    }
    if n_tokens > block_tokens {
        return Err(EngineError::InvalidSize { expected: block_tokens, actual: n_tokens });
    }
    let start = if matched_tokens > 0 && pos == matched_tokens {
        matched_tokens
    } else {
        0
    };
    let limit = if chunk_size == 0 {
        1
    } else if chunk_size > MAX_PREFILL_CHUNK {
        MAX_PREFILL_CHUNK
    } else {
        chunk_size
    };
    let mut lens: Vec<usize> = Vec::new();
    let mut current = start;
    while current < n_tokens
        invariant
            start <= current <= n_tokens,
            1 <= limit,
            lens@ + chunk_lens((n_tokens - current) as nat, limit as nat) == chunk_lens(
                (n_tokens - start) as nat,
                limit as nat,
            ),
        decreases n_tokens - current,
    {
        let rest = n_tokens - current;
        let chunk_len = if rest < limit {
            rest
        } else {
            limit
        };
        let ghost before = lens@;
        lens.push(chunk_len);
        proof {
            let next_rest = (n_tokens - current - chunk_len) as nat;
            if rest <= limit {
                assert(chunk_lens(next_rest, limit as nat) =~= Seq::<usize>::empty());
                assert(lens@ + chunk_lens(next_rest, limit as nat) =~= before + chunk_lens(
                    rest as nat,
                    limit as nat,
                ));
            } else {
                assert(lens@ + chunk_lens(next_rest, limit as nat) =~= before + chunk_lens(
                    rest as nat,
                    limit as nat,
                ));
            }
        }
        current = current + chunk_len;
    }
    proof {
        assert(lens@ + chunk_lens(0, limit as nat) =~= lens@);
    }
    Ok(PrefillChunks { start, chunk_lens: lens })
}

} // verus!
