//! Core engine logic: constrained-decoding JSON grammar, byte-level BPE
//! tokenization, n-gram draft proposal, greedy speculative verification,
//! stop-sequence detection, MoE expert slot caching and host expert banks,
//! and VRAM budget planning and accounting.

pub mod dequant;
pub mod error;
pub mod forward_cpu;
pub mod forward_driver;
pub mod grammar;
pub mod layer_double_buffer;
pub mod moe;
pub mod ngram_draft;
pub mod pipeline;
pub mod sampler;
pub mod speculative;
pub mod streaming_forward_driver;
pub mod text;
pub mod tokenizer;
pub mod vram_accounting;

pub use error::EngineError;
pub use forward_driver::VramFootprint;
pub use layer_double_buffer::{HostLayerWeights, LayerTensorSizes};
pub use moe::{
    CpuMoeConfig, ExpertSlotCache, ExpertTensorDesc, GpuProfileInfo, HostExpertBank,
    LayerCacheStats, MoeBackend, MoeBudgetPlan, PrefillDoubleBuffer, RewrittenRouting,
    balanced_fetch, plan_moe_vram_budget,
};
pub use ngram_draft::NgramDraftProposer;
pub use pipeline::PipelineStats;
pub use sampler::Sampler;
pub use speculative::{SpeculativeVerificationResult, SpeculativeVerifier};
pub use tokenizer::BpeTokenizer;
pub use vram_accounting::{VramStageBreakdown, compute_static_vram_map};

use vstd::prelude::*;

verus! {

/// Version string of the engine core.
pub fn version() -> (v: &'static str)
    ensures
        v@ == "0.1.0"@,
{
    "0.1.0"
}

} // verus!
