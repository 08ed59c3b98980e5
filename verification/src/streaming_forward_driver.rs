//! Host layer weights and the per-token position check of the streaming
//! forward driver.

use vstd::prelude::*;
use crate::error::EngineError;
use crate::forward_cpu::Tensor;
use crate::layer_double_buffer::HostLayerWeights;

verus! {

/// Parsed host layer matrix weights referencing pinned host DRAM memory.
pub struct PinnedLayerWeights<'a> {
    pub wq: Tensor<'a>,
    pub wk: Tensor<'a>,
    pub wv: Tensor<'a>,
    pub wo: Tensor<'a>,
    pub wgate: Tensor<'a>,
    pub wup: Tensor<'a>,
    pub wdown: Tensor<'a>,
}

/// The raw bytes of each layer matrix, ready for transfer.
pub fn extract_host_weights<'a>(p: &'a PinnedLayerWeights<'a>) -> (w: HostLayerWeights<'a>)
    ensures
        w.wq_data@ == p.wq.data@,
        w.wk_data@ == p.wk.data@,
        w.wv_data@ == p.wv.data@,
        w.wo_data@ == p.wo.data@,
        w.wgate_data@ == p.wgate.data@,
        w.wup_data@ == p.wup.data@,
        w.wdown_data@ == p.wdown.data@,
{
    HostLayerWeights {
        wq_data: p.wq.data,
        wk_data: p.wk.data,
        wv_data: p.wv.data,
        wo_data: p.wo.data,
        wgate_data: p.wgate.data,
        wup_data: p.wup.data,
        wdown_data: p.wdown.data,
    }
}

/// The position check of a streaming forward step: the token at position
/// `pos` must fit into the resident KV block of `block_tokens` positions. On
/// success the result is the position of the next token; otherwise the step
/// fails with `InvalidSize`, `expected` the block size and `actual` the
/// number of positions the token would need.
pub fn plan_token_position(pos: usize, block_tokens: usize) -> (r: Result<usize, EngineError>)
    requires
        pos < block_tokens || pos < usize::MAX,
    ensures
        pos < block_tokens ==> r == Ok::<usize, EngineError>((pos + 1) as usize),
        pos >= block_tokens ==> r == Err::<usize, EngineError>(
            EngineError::InvalidSize { expected: block_tokens, actual: (pos + 1) as usize },
        ),
{
    if pos >= block_tokens {
        return Err(EngineError::InvalidSize { expected: block_tokens, actual: pos + 1 });
    }
    Ok(pos + 1)
}

} // verus!
