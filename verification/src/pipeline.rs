//! The outcome of a double-buffered layer pipeline run: layers stream through
//! two device slots in turn (layer `i` into slot `i % 2`), and a layer larger
//! than a slot stops the run.

use vstd::prelude::*;
use crate::error::EngineError;

verus! {

/// Execution statistics returned by a pipeline run.
#[derive(Debug, Clone, PartialEq, Eq, Structural)]
pub struct PipelineStats {
    /// Total number of layers processed.
    pub layers: usize,
}

/// The slot that layer `i` streams into.
pub fn pipeline_slot(i: usize) -> (s: usize)
    ensures
        s == i % 2,
        s < 2,
{
    i % 2
}

/// The outcome of streaming layers of the given byte lengths through slots of
/// `max_layer_bytes`: the first layer that does not fit stops the run with
/// `InvalidLayerSize`; otherwise every layer is processed.
pub fn pipeline_outcome(layer_lens: &[usize], max_layer_bytes: usize) -> (r: Result<
    PipelineStats,
    EngineError,
>)
    ensures
        (forall|k: int| 0 <= k < layer_lens@.len() ==> #[trigger] layer_lens@[k] <= max_layer_bytes)
            ==> r == Ok::<PipelineStats, EngineError>(PipelineStats { layers: layer_lens@.len() as usize }),
        forall|j: int|
            0 <= j < layer_lens@.len() && layer_lens@[j] > max_layer_bytes && (forall|k: int|
                0 <= k < j ==> #[trigger] layer_lens@[k] <= max_layer_bytes) ==> r == Err::<
                PipelineStats,
                EngineError,
            >(EngineError::InvalidLayerSize { expected: max_layer_bytes, actual: layer_lens@[j] }),
{
    let mut i: usize = 0;
    while i < layer_lens.len()
        invariant
            i <= layer_lens@.len(),
            forall|k: int| 0 <= k < i ==> #[trigger] layer_lens@[k] <= max_layer_bytes,
        decreases layer_lens@.len() - i,
    {
        if layer_lens[i] > max_layer_bytes {
            return Err(EngineError::InvalidLayerSize { expected: max_layer_bytes, actual: layer_lens[i] });
        }
        i = i + 1;
    }
    Ok(PipelineStats { layers: layer_lens.len() })
}

} // verus!
