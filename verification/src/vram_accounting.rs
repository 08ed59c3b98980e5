//! Static estimation and runtime breakdown of device memory across the engine
//! stages: ping-pong layer staging buffers, resident per-layer KV cache pools,
//! activation scratch buffers and the logits transfer buffer.

use vstd::prelude::*;
use crate::error::EngineError;
use crate::forward_driver::VramFootprint;

verus! {

/// Per-stage VRAM breakdown.
#[derive(Debug, Clone, Copy, PartialEq, Eq, Structural)]
pub struct VramStageBreakdown {
    /// Memory for uploaded weights / ping-pong buffers.
    pub pingpong_bytes: usize,
    /// Memory for resident per-layer KV pools.
    pub kv_pool_bytes: usize,
    /// Memory for activation scratch buffers across all kernels.
    pub activations_bytes: usize,
    /// Memory for output logits buffer.
    pub logits_bytes: usize,
}

impl VramStageBreakdown {
    /// The sum of the four stages.
    pub open spec fn sum(&self) -> int {
        self.pingpong_bytes + self.kv_pool_bytes + self.activations_bytes + self.logits_bytes
    }

    /// Computes the total working set in bytes.
    pub fn total_bytes(&self) -> (t: usize)
        requires
            self.sum() <= usize::MAX,
        ensures
            t == self.sum(),
    {
        self.pingpong_bytes + self.kv_pool_bytes + self.activations_bytes + self.logits_bytes
    }

    /// Checks that the total working set is at most `budget_bytes`; otherwise
    /// reports the budget and the working set.
    pub fn assert_within_budget(&self, budget_bytes: usize) -> (r: Result<(), EngineError>)
        requires
            self.sum() <= usize::MAX,
        ensures
            r is Ok <==> self.sum() <= budget_bytes,
            r matches Err(e) ==> e == (EngineError::InvalidSize {
                expected: budget_bytes,
                actual: self.sum() as usize,
            }),
    {
        let tot = self.total_bytes();
        if tot > budget_bytes {
            Err(EngineError::InvalidSize { expected: budget_bytes, actual: tot })
        } else {
            Ok(())
        }
    }
}

impl From<VramFootprint> for VramStageBreakdown {
    fn from(f: VramFootprint) -> (b: Self) {
        VramStageBreakdown {
            pingpong_bytes: f.pingpong_bytes,
            kv_pool_bytes: f.kv_pool_bytes,
            activations_bytes: f.activations_bytes,
            logits_bytes: f.logits_bytes,
        }
    }
}

impl vstd::std_specs::convert::FromSpecImpl<VramFootprint> for VramStageBreakdown {
    open spec fn obeys_from_spec() -> bool {
        true
    }

    open spec fn from_spec(f: VramFootprint) -> Self {
        VramStageBreakdown {
            pingpong_bytes: f.pingpong_bytes,
            kv_pool_bytes: f.kv_pool_bytes,
            activations_bytes: f.activations_bytes,
            logits_bytes: f.logits_bytes,
        }
    }
}

/// The transformer dimensions that the static VRAM map depends on.
#[derive(Debug, Clone, Copy, PartialEq, Eq, Structural)]
pub struct ModelDims {
    /// Hidden (embedding) width.
    pub hidden_size: u32,
    /// Width of one attention head.
    pub head_dim: u32,
    /// Number of query heads.
    pub n_head: u32,
    /// Number of key/value heads.
    pub n_head_kv: u32,
    /// Width of the feed-forward layer.
    pub intermediate_size: u32,
    /// Number of transformer layers.
    pub n_layer: u32,
}

/// Bytes of a Q4_K tensor of `elements` weights: 144 bytes per 256 weights.
pub open spec fn q4k_bytes(elements: int) -> int {
    (elements / 256) * 144
}

/// Bytes of one layer's uploaded weights: Q4_K attention and FFN matrices and
/// four f32 norm vectors.
pub open spec fn layer_weight_bytes(d: ModelDims) -> int {
    let h = d.hidden_size as int;
    let hd = d.head_dim as int;
    let nh = d.n_head as int;
    let nkv = d.n_head_kv as int;
    let hff = d.intermediate_size as int;
    q4k_bytes((nh * hd) * h) + q4k_bytes((nkv * hd) * h) + q4k_bytes(h * (nh * hd)) + q4k_bytes(
        hff * h,
    ) + q4k_bytes(hff * h) + h * 4 + hd * 4 + hd * 4 + h * 4
}

/// Bytes of the ping-pong buffers: two layers when streaming double-buffered,
/// else every layer.
pub open spec fn pingpong_bytes_of(d: ModelDims, double_buffered: bool) -> int {
    if double_buffered {
        2 * layer_weight_bytes(d)
    } else {
        d.n_layer * layer_weight_bytes(d)
    }
}

/// Bytes of the KV pools: a key and a value row of f32 per token, layer and
/// position.
pub open spec fn kv_pool_bytes_of(d: ModelDims, max_seq_tokens: int) -> int {
    ((d.n_layer as int * max_seq_tokens) * (2 * (d.n_head_kv as int * d.head_dim as int))) * 4
}

/// Bytes of the f32 activation scratch buffers, plus one `i32`.
pub open spec fn activations_bytes_of(d: ModelDims) -> int {
    let h = d.hidden_size as int;
    let hd = d.head_dim as int;
    let qdim = d.n_head as int * hd;
    let kvd = d.n_head_kv as int * hd;
    let hff = d.intermediate_size as int;
    h * 4 + h * 4 + qdim * 4 + kvd * 4 + kvd * 4 + hd * 4 + qdim * 4 + h * 4 + h * 4 + h * 4 + hff
        * 4 + hff * 4 + hff * 4 + h * 4 + hd * 4 + hff * 4 + 4
}

/// Every intermediate quantity of the static VRAM map fits in `usize`.
pub open spec fn static_map_fits(d: ModelDims, max_seq_tokens: int, vocab_size: int, double_buffered: bool) -> bool {
    let h = d.hidden_size as int;
    let hd = d.head_dim as int;
    let nh = d.n_head as int;
    let nkv = d.n_head_kv as int;
    let hff = d.intermediate_size as int;
    &&& (nh * hd) * h <= usize::MAX
    &&& (nkv * hd) * h <= usize::MAX
    &&& hff * h <= usize::MAX
    &&& layer_weight_bytes(d) <= usize::MAX
    &&& pingpong_bytes_of(d, double_buffered) <= usize::MAX
    &&& d.n_layer * max_seq_tokens <= usize::MAX
    &&& (d.n_layer * max_seq_tokens) * (2 * (nkv * hd)) <= usize::MAX
    &&& kv_pool_bytes_of(d, max_seq_tokens) <= usize::MAX
    &&& activations_bytes_of(d) <= usize::MAX
    &&& vocab_size * 4 <= usize::MAX
}

/// Computes the static VRAM accounting map from the model dimensions.
pub fn compute_static_vram_map(
    cfg: &ModelDims,
    max_seq_tokens: usize,
    vocab_size: usize,
    is_streaming_double_buffered: bool,
) -> (b: VramStageBreakdown)
    requires
        static_map_fits(*cfg, max_seq_tokens as int, vocab_size as int, is_streaming_double_buffered),
    ensures
        b.pingpong_bytes == pingpong_bytes_of(*cfg, is_streaming_double_buffered),
        b.kv_pool_bytes == kv_pool_bytes_of(*cfg, max_seq_tokens as int),
        b.activations_bytes == activations_bytes_of(*cfg),
        b.logits_bytes == vocab_size * 4,
{
    let h = cfg.hidden_size as usize;
    let hd = cfg.head_dim as usize;
    let nh = cfg.n_head as usize;
    let nkv = cfg.n_head_kv as usize;
    let hff = cfg.intermediate_size as usize;
    let n_layer = cfg.n_layer as usize;
    let layer_weights = q4k_bytes_of((nh * hd) * h) + q4k_bytes_of((nkv * hd) * h)
        + q4k_bytes_of(h * (nh * hd)) + q4k_bytes_of(hff * h) + q4k_bytes_of(hff * h) + (h * 4) + (hd
        * 4) + (hd * 4) + (h * 4);

    let pingpong_bytes = if is_streaming_double_buffered {
        2 * layer_weights
    } else {
        n_layer * layer_weights
    };

    let floats_per_token = 2 * (nkv * hd);
    let kv_pool_bytes = n_layer * max_seq_tokens * floats_per_token * 4;

    let qdim = nh * hd;
    let kvd = nkv * hd;
    let activations_bytes = (h * 4) + (h * 4) + (qdim * 4) + (kvd * 4) + (kvd * 4) + (hd * 4) + (
    qdim * 4) + (h * 4) + (h * 4) + (h * 4) + (hff * 4) + (hff * 4) + (hff * 4) + (h * 4) + (hd
        * 4) + (hff * 4) + 4;

    let logits_bytes = vocab_size * 4;

    VramStageBreakdown { pingpong_bytes, kv_pool_bytes, activations_bytes, logits_bytes }
}

/// Computes [`q4k_bytes`].
fn q4k_bytes_of(elements: usize) -> (b: usize)
    ensures
        b == q4k_bytes(elements as int),
{
    (elements / 256) * 144
}

} // verus!
